//! Common-prefix lengths of 64-bit keys, and how they behave on sorted keys.
use vstd::prelude::*;
use vstd::std_specs::bits::{u64_leading_zeros, axiom_u64_leading_zeros};

verus! {

/// Number of leading bits that `a` and `b` share.
pub open spec fn common_prefix(a: u64, b: u64) -> int {
    u64_leading_zeros(a ^ b)
}

/// The prefix that `keys[a]` shares with `keys[b]`, or `-1` when `b` lies
/// outside the keys.
pub open spec fn delta(keys: Seq<u64>, a: int, b: int) -> int {
    if 0 <= b < keys.len() {
        common_prefix(keys[a], keys[b])
    } else {
        -1
    }
}

pub open spec fn strictly_increasing(s: Seq<u64>) -> bool {
    forall|p: int, q: int| 0 <= p < q < s.len() ==> s[p] < s[q]
}

/// The highest set bit of a nonzero word sits right below its leading zeros.
proof fn lemma_top_bit(x: u64)
    requires
        x != 0,
    ensures
        0 <= u64_leading_zeros(x) < 64,
        x >> ((63 - u64_leading_zeros(x)) as u64) == 1,
{
    axiom_u64_leading_zeros(x);
    let z = u64_leading_zeros(x) as u64;
    let t = (63 - u64_leading_zeros(x)) as u64;
    assert((x >> t) & 1 != 0 && x >> ((t + 1) as u64) == 0) by {
        assert(t == vstd::prelude::sub(63u64, z));
        assert((t + 1) as u64 == vstd::prelude::sub(64u64, z));
    }
    assert(x >> t == 1) by (bit_vector)
        requires
            t < 64,
            (x >> t) & 1 != 0,
            x >> ((t + 1) as u64) == 0,
    ;
}

pub proof fn lemma_common_prefix_bounds(a: u64, b: u64)
    ensures
        0 <= common_prefix(a, b) <= 64,
        a == b <==> common_prefix(a, b) == 64,
        common_prefix(a, b) == common_prefix(b, a),
{
    axiom_u64_leading_zeros(a ^ b);
    assert(a ^ b == b ^ a) by (bit_vector);
    assert(a == b <==> a ^ b == 0) by (bit_vector);
}

/// For `a < b < c`, the outer pair shares no more than either inner pair, and
/// the two inner pairs never share the same prefix length.
pub proof fn lemma_common_prefix_order(a: u64, b: u64, c: u64)
    requires
        a < b < c,
    ensures
        common_prefix(a, c) <= common_prefix(a, b),
        common_prefix(a, c) <= common_prefix(b, c),
        common_prefix(a, b) != common_prefix(b, c),
{
    assert(a ^ b != 0 && b ^ c != 0 && a ^ c != 0) by (bit_vector)
        requires
            a < b < c,
    ;
    lemma_top_bit(a ^ b);
    lemma_top_bit(b ^ c);
    lemma_top_bit(a ^ c);
    let tab = (63 - u64_leading_zeros(a ^ b)) as u64;
    let tbc = (63 - u64_leading_zeros(b ^ c)) as u64;
    let tac = (63 - u64_leading_zeros(a ^ c)) as u64;
    assert(tab <= tac) by (bit_vector)
        requires
            a < b < c,
            tab < 64,
            tac < 64,
            (a ^ b) >> tab == 1,
            (a ^ c) >> tac == 1,
    ;
    assert(tbc <= tac) by (bit_vector)
        requires
            a < b < c,
            tbc < 64,
            tac < 64,
            (b ^ c) >> tbc == 1,
            (a ^ c) >> tac == 1,
    ;
    assert(tab != tbc) by (bit_vector)
        requires
            a < b < c,
            tab < 64,
            tbc < 64,
            (a ^ b) >> tab == 1,
            (b ^ c) >> tbc == 1,
    ;
}

/// On strictly increasing keys, the prefix shared with `keys[i]` does not grow
/// as the other index moves away from `i` in either direction.
pub proof fn lemma_delta_monotone(keys: Seq<u64>, i: int, d: int, t1: int, t2: int)
    requires
        strictly_increasing(keys),
        0 <= i < keys.len(),
        d == 1 || d == -1,
        1 <= t1 <= t2,
    ensures
        delta(keys, i, i + t2 * d) <= delta(keys, i, i + t1 * d),
{
    let a = i + t1 * d;
    let b = i + t2 * d;
    assert(t1 * d == if d == 1 { t1 } else { -t1 }) by (nonlinear_arith)
        requires
            d == 1 || d == -1,
    ;
    assert(t2 * d == if d == 1 { t2 } else { -t2 }) by (nonlinear_arith)
        requires
            d == 1 || d == -1,
    ;
    if 0 <= b < keys.len() {
        assert(0 <= a < keys.len());
        if t1 < t2 {
            if d == 1 {
                lemma_common_prefix_order(keys[i], keys[a], keys[b]);
            } else {
                lemma_common_prefix_order(keys[b], keys[a], keys[i]);
                lemma_common_prefix_bounds(keys[i], keys[a]);
                lemma_common_prefix_bounds(keys[i], keys[b]);
            }
        }
    } else if 0 <= a < keys.len() {
        lemma_common_prefix_bounds(keys[i], keys[a]);
    }
}

/// On strictly increasing keys, the two neighbours of `i` share prefixes of
/// different lengths with it.
pub proof fn lemma_neighbours_differ(keys: Seq<u64>, i: int)
    requires
        strictly_increasing(keys),
        0 < i < keys.len() - 1,
    ensures
        delta(keys, i, i - 1) != delta(keys, i, i + 1),
{
    lemma_common_prefix_order(keys[i - 1], keys[i], keys[i + 1]);
    lemma_common_prefix_bounds(keys[i], keys[i - 1]);
}

/// Words that share more than `p` leading bits agree on every bit from
/// `63 - p` up.
proof fn lemma_prefix_above(x: u64, p: int)
    requires
        0 <= p < 64,
        u64_leading_zeros(x) > p,
    ensures
        x >> ((63 - p) as u64) == 0,
{
    axiom_u64_leading_zeros(x);
    let u = (64 - u64_leading_zeros(x)) as u64;
    let v = (63 - p) as u64;
    assert(x >> u == 0) by {
        assert(u == vstd::prelude::sub(64u64, u64_leading_zeros(x) as u64));
    }
    assert(x >> v == 0) by (bit_vector)
        requires
            x >> u == 0,
            u <= v,
            v < 64,
    ;
}

/// Prefix lengths are ultrametric: `a` and `c` share at least as much as the
/// smaller of what each shares with `b`.
pub proof fn lemma_common_prefix_ultrametric(a: u64, b: u64, c: u64)
    ensures
        common_prefix(a, c) >= common_prefix(a, b) || common_prefix(a, c) >= common_prefix(b, c),
{
    lemma_common_prefix_bounds(a, c);
    if a != c {
        assert(a ^ c != 0) by (bit_vector)
            requires
                a != c,
        ;
        lemma_top_bit(a ^ c);
        let p = common_prefix(a, c);
        if common_prefix(a, b) > p && common_prefix(b, c) > p {
            lemma_prefix_above(a ^ b, p);
            lemma_prefix_above(b ^ c, p);
            let t = (63 - p) as u64;
            assert(false) by (bit_vector)
                requires
                    (a ^ b) >> t == 0,
                    (b ^ c) >> t == 0,
                    (a ^ c) >> t == 1,
            ;
        }
    }
}

} // verus!
