//! The assembled spatial index: leaves in Morton order and the radix-tree
//! topology over their keys. Generic over the leaf payload `T` and box type `B`,
//! which it carries without reading.
use vstd::prelude::*;
use vstd::arithmetic::power2::{lemma_pow2_pos, lemma_pow2_strictly_increases, lemma2_to64};
use vstd::bits::lemma_u64_shl_is_mul;
use crate::bit_packing::bits_needed;
use crate::morton::{Cell, morton_sort, leaf_keys, index_mask, lemma_leaf_key_index};
use crate::prefix::strictly_increasing;
use crate::radix_tree::{Span, MAX_LEAVES, build_radix_tree, is_topology};

verus! {

/// A leaf of the index: its box and its composite key.
#[derive(Clone, Copy, Debug)]
pub struct BvhNode<B> {
    pub box_: B,
    pub code: u64,
}

/// One input primitive: the payload, its bounding box, and its centroid
/// quantized to the grid of the global box.
#[derive(Clone, Copy, Debug)]
pub struct Leaf<T, B> {
    pub primitive: T,
    pub box_: B,
    pub cell: Cell,
}

#[derive(Clone, Copy, Debug, PartialEq, Eq, Structural)]
pub enum BuildError {
    /// An index needs at least one primitive.
    NoPrimitives,
}

/// The spatial index: `num_leaves` leaves in key order, `num_leaves - 1`
/// internal nodes, and the node arrays `ranges`, `parents`, `siblings` over
/// all `2 num_leaves - 1` nodes.
pub struct Bvh<T, B> {
    pub global: B,
    pub mask: u64,
    pub num_leaves: u64,
    pub nodes: Vec<BvhNode<B>>,
    pub ranges: Vec<Span>,
    pub parents: Vec<usize>,
    pub siblings: Vec<usize>,
    pub code_ids: Vec<u64>,
    pub primitives: Vec<T>,
}

/// The quantized cells of the leaves, in input order.
pub open spec fn cells_of<T, B>(leaves: Seq<Leaf<T, B>>) -> Seq<Cell> {
    Seq::new(leaves.len(), |i: int| leaves[i].cell)
}

/// Sorted leaf `q` holds the primitive and box of the input leaf that its key names.
pub open spec fn placed<T, B>(
    leaves: Seq<Leaf<T, B>>,
    keys: Seq<u64>,
    mask: u64,
    primitives: Seq<T>,
    nodes: Seq<BvhNode<B>>,
    q: int,
) -> bool {
    let id = (keys[q] & mask) as int;
    &&& 0 <= id < leaves.len()
    &&& primitives[q] == leaves[id].primitive
    &&& nodes[q].box_ == leaves[id].box_
    &&& nodes[q].code == keys[q]
}

impl<T: Copy, B: Copy> Bvh<T, B> {
    /// Number of internal nodes.
    pub open spec fn num_internal_nodes(&self) -> int {
        self.ranges@.len() - self.num_leaves
    }

    /// This index is the one built from `leaves` inside the box `global`.
    pub open spec fn built_from(&self, leaves: Seq<Leaf<T, B>>, global: B) -> bool {
        let n = leaves.len();
        &&& self.global == global
        &&& self.num_leaves == n
        &&& self.mask == index_mask(n)
        &&& self.code_ids@.len() == n
        &&& self.code_ids@.to_multiset() == leaf_keys(cells_of(leaves)).to_multiset()
        &&& strictly_increasing(self.code_ids@)
        &&& self.nodes@.len() == n
        &&& self.primitives@.len() == n
        &&& forall|p: int|
            0 <= p < n ==> #[trigger] placed(leaves, self.code_ids@, self.mask, self.primitives@, self.nodes@, p)
        &&& is_topology(self.code_ids@, self.ranges@, self.parents@, self.siblings@)
    }

    /// Builds the index over `leaves`. Their keys are sorted, the primitives and
    /// boxes follow the sorted order, and the radix tree is built over the keys.
    /// Fails only when there are no leaves.
    pub fn from(leaves: &Vec<Leaf<T, B>>, global: B) -> (r: Result<Self, BuildError>)
        requires
            leaves@.len() <= MAX_LEAVES,
        ensures
            leaves@.len() == 0 <==> r is Err,
            match r {
                Ok(bvh) => {
                    &&& bvh.built_from(leaves@, global)
                    &&& bvh.num_leaves == leaves@.len()
                    &&& bvh.nodes@.len() == leaves@.len()
                    &&& bvh.num_internal_nodes() == leaves@.len() - 1
                },
                Err(e) => e == BuildError::NoPrimitives,
            },
    {
        let n = leaves.len();
        if n == 0 {
            return Err(BuildError::NoPrimitives);
        }
        let mut cells: Vec<Cell> = Vec::with_capacity(n);
        let mut i: usize = 0;
        while i < n
            invariant
                n == leaves@.len(),
                i <= n,
                cells@ =~= cells_of(leaves@).take(i as int),
            decreases n - i,
        {
            cells.push(leaves[i].cell);
            i = i + 1;
        }
        assert(cells@ =~= cells_of(leaves@));

        let b = bits_needed(n as u32);
        proof {
            lemma_pow2_pos(b as nat);
            lemma2_to64();
            if b < 32 {
                lemma_pow2_strictly_increases(b as nat, 32);
            }
            lemma_u64_shl_is_mul(1u64, b as u64);
        }
        let mask: u64 = (1u64 << (b as u64)) - 1;
        let code_ids = morton_sort(&cells);
        proof {
            code_ids@.to_multiset_ensures();
            leaf_keys(cells@).to_multiset_ensures();
        }

        let mut primitives: Vec<T> = Vec::with_capacity(n);
        let mut nodes: Vec<BvhNode<B>> = Vec::with_capacity(n);
        let mut p: usize = 0;
        while p < n
            invariant
                n == leaves@.len() == code_ids@.len() == cells@.len(),
                1 <= n <= MAX_LEAVES,
                cells@ == cells_of(leaves@),
                mask == index_mask(n as nat),
                code_ids@.to_multiset() == leaf_keys(cells@).to_multiset(),
                forall|x: u64| code_ids@.contains(x) <==> #[trigger] code_ids@.to_multiset().count(x) > 0,
                forall|x: u64| leaf_keys(cells@).contains(x) <==> #[trigger] leaf_keys(cells@).to_multiset().count(x) > 0,
                p <= n,
                primitives@.len() == p,
                nodes@.len() == p,
                forall|q: int| 0 <= q < p ==> #[trigger] placed(leaves@, code_ids@, mask, primitives@, nodes@, q),
            decreases n - p,
        {
            let key = code_ids[p];
            proof {
                assert(code_ids@.contains(key));
                assert(code_ids@.to_multiset().count(key) > 0);
                assert(leaf_keys(cells@).to_multiset().count(key) > 0);
                assert(leaf_keys(cells@).contains(key));
                let q = choose|q: int| 0 <= q < n && leaf_keys(cells@)[q] == key;
                lemma_leaf_key_index(cells@[q], q as nat, n as nat);
            }
            let id = (key & mask) as usize;
            let leaf = leaves[id];
            assert(leaf == leaves@[id as int]);
            let ghost prims0 = primitives@;
            let ghost nodes0 = nodes@;
            primitives.push(leaf.primitive);
            nodes.push(BvhNode { box_: leaf.box_, code: key });
            assert forall|q: int| 0 <= q < p + 1 implies #[trigger] placed(leaves@, code_ids@, mask, primitives@, nodes@, q) by {
                if q < p {
                    assert(placed(leaves@, code_ids@, mask, prims0, nodes0, q));
                    assert(primitives@[q] == prims0[q]);
                    assert(nodes@[q] == nodes0[q]);
                }
            }
            p = p + 1;
        }

        let (ranges, parents, siblings) = build_radix_tree(&code_ids);
        let bvh = Bvh {
            global,
            mask,
            num_leaves: n as u64,
            nodes,
            ranges,
            parents,
            siblings,
            code_ids,
            primitives,
        };
        Ok(bvh)
    }
}

} // verus!
