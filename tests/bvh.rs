use rl_ball_sym::bit_packing::bits_needed;
use rl_ball_sym::bvh::{BuildError, Bvh, Leaf};
use rl_ball_sym::morton::{encode, morton_sort, Cell};
use rl_ball_sym::radix_tree::{build_radix_tree, split_node, PrefixComparator, Span};

fn cell(x: u64, y: u64, z: u64) -> Cell {
    Cell { x, y, z }
}

fn leaves_from(cells: &[Cell]) -> Vec<Leaf<usize, (u64, u64)>> {
    cells
        .iter()
        .enumerate()
        .map(|(i, c)| Leaf { primitive: i, box_: (c.x, c.y), cell: *c })
        .collect()
}

fn grid_cells(n: u64) -> Vec<Cell> {
    (0..n).map(|i| cell((i * 7919) % 97, (i * 104729) % 89, (i * 31) % 83)).collect()
}

/// Checks that each internal node has exactly two children whose ranges
/// split its own range with no gap or overlap.
fn assert_children_partition(ranges: &[Span], parents: &[usize], n: usize) {
    for m in n..2 * n - 1 {
        let mut children: Vec<usize> = (0..2 * n - 1).filter(|&c| c != m && parents[c] == m).collect();
        assert_eq!(children.len(), 2, "node {} has children {:?}", m, children);
        children.sort_by_key(|&c| ranges[c].lo);
        let (l, r) = (ranges[children[0]], ranges[children[1]]);
        assert_eq!(l.lo, ranges[m].lo);
        assert_eq!(l.hi + 1, r.lo);
        assert_eq!(r.hi, ranges[m].hi);
    }
}

#[test]
fn bits_needed_values() {
    assert_eq!(bits_needed(0), 0);
    assert_eq!(bits_needed(1), 0);
    assert_eq!(bits_needed(2), 1);
    assert_eq!(bits_needed(3), 2);
    assert_eq!(bits_needed(4), 2);
    assert_eq!(bits_needed(5), 3);
    assert_eq!(bits_needed(8028), 13);
    assert_eq!(bits_needed(u32::MAX), 32);
}

#[test]
fn encode_interleaves_bits() {
    assert_eq!(encode(1, 0, 0, 21), 1);
    assert_eq!(encode(0, 1, 0, 21), 2);
    assert_eq!(encode(0, 0, 1, 21), 4);
    assert_eq!(encode(2, 0, 0, 21), 8);
    assert_eq!(encode(3, 3, 3, 21), 63);
    assert_eq!(encode(5, 0, 6, 21), 353);
    assert_eq!(encode(1 << 21, 0, 0, 21), 0);
    assert_eq!(encode(0x1f_ffff, 0x1f_ffff, 0x1f_ffff, 21), (1u64 << 63) - 1);
    assert_eq!(encode(7, 7, 7, 2), 63);
}

#[test]
fn morton_keys_of_two_leaves() {
    // one index bit; the code sits above it
    let keys = morton_sort(&vec![cell(1, 0, 0), cell(0, 0, 0)]);
    assert_eq!(keys, vec![1, 2]);
}

#[test]
fn morton_keys_equal_cells_stay_distinct() {
    let keys = morton_sort(&vec![cell(3, 3, 3); 5]);
    assert_eq!(keys.len(), 5);
    for w in keys.windows(2) {
        assert!(w[0] < w[1]);
    }
    let code = encode(3, 3, 3, 20) << 3;
    assert_eq!(keys, (0..5).map(|i| code | i).collect::<Vec<u64>>());
}

#[test]
fn morton_keys_strictly_increasing_and_indices_permuted() {
    let cells = grid_cells(100);
    let keys = morton_sort(&cells);
    assert_eq!(keys.len(), 100);
    for w in keys.windows(2) {
        assert!(w[0] < w[1]);
    }
    let mask = (1u64 << bits_needed(100)) - 1;
    let mut ids: Vec<u64> = keys.iter().map(|k| k & mask).collect();
    ids.sort();
    assert_eq!(ids, (0..100).collect::<Vec<u64>>());
}

#[test]
fn prefix_comparator_counts_shared_bits() {
    let codes = vec![0u64, 1, 1 << 63];
    let cmp = PrefixComparator { base: 0, codes: &codes, n: 3 };
    assert_eq!(cmp.call(0), 64);
    assert_eq!(cmp.call(1), 63);
    assert_eq!(cmp.call(2), 0);
    assert_eq!(cmp.call(-1), -1);
    assert_eq!(cmp.call(3), -1);
}

#[test]
fn split_node_of_four_keys() {
    let keys = vec![0u64, 1, 2, 3];
    // the root covers everything and splits between 1 and 2
    assert_eq!(split_node(&keys, 0), (0, 3, 1));
    // node 1 grows left: [0, 1], split after 0
    assert_eq!(split_node(&keys, 1), (0, 1, 0));
    // node 2 grows right: [2, 3], split after 2
    assert_eq!(split_node(&keys, 2), (2, 3, 2));
}

#[test]
fn radix_tree_of_four_keys() {
    let (ranges, parents, siblings) = build_radix_tree(&vec![0u64, 1, 2, 3]);
    assert_eq!(ranges.len(), 7);
    assert_eq!(ranges[4], Span { lo: 0, hi: 3 });
    assert_eq!(ranges[5], Span { lo: 0, hi: 1 });
    assert_eq!(ranges[6], Span { lo: 2, hi: 3 });
    assert_eq!(parents, vec![5, 5, 6, 6, 4, 4, 4]);
    assert_eq!(siblings[5], 6);
    assert_eq!(siblings[6], 5);
    assert_eq!(siblings[0], 1);
    assert_eq!(siblings[3], 2);
}

#[test]
fn radix_tree_children_partition_ranges() {
    for n in [2u64, 3, 5, 17, 64, 100, 333] {
        let keys = morton_sort(&grid_cells(n));
        let (ranges, parents, _) = build_radix_tree(&keys);
        let n = n as usize;
        assert_eq!(ranges.len(), 2 * n - 1);
        assert_eq!(ranges[n], Span { lo: 0, hi: n - 1 });
        assert_eq!(parents[n], n);
        assert_children_partition(&ranges, &parents, n);
    }
}

#[test]
fn radix_tree_links_every_node_but_the_root_once() {
    for n in [2u64, 6, 41, 200] {
        let keys = morton_sort(&grid_cells(n));
        let (_, parents, siblings) = build_radix_tree(&keys);
        let n = n as usize;
        for c in 0..2 * n - 1 {
            if c == n {
                continue;
            }
            assert!(parents[c] >= n && parents[c] < 2 * n - 1);
            let s = siblings[c];
            assert_ne!(s, c);
            assert_eq!(siblings[s], c);
            assert_eq!(parents[s], parents[c]);
        }
    }
}

#[test]
fn radix_tree_of_one_key() {
    let (ranges, parents, siblings) = build_radix_tree(&vec![42u64]);
    assert_eq!(ranges, vec![Span { lo: 0, hi: 0 }]);
    assert_eq!(parents, vec![0]);
    assert_eq!(siblings, vec![0]);
}

#[test]
fn bvh_from_no_leaves_fails() {
    let leaves: Vec<Leaf<usize, (u64, u64)>> = Vec::new();
    assert!(matches!(Bvh::from(&leaves, (0, 0)), Err(BuildError::NoPrimitives)));
}

#[test]
fn bvh_from_one_leaf() {
    let bvh = Bvh::from(&leaves_from(&[cell(9, 9, 9)]), (1, 2)).unwrap();
    assert_eq!(bvh.num_leaves, 1);
    assert_eq!(bvh.nodes.len(), 1);
    assert_eq!(bvh.ranges.len() - bvh.nodes.len(), 0);
    assert_eq!(bvh.mask, 0);
    assert_eq!(bvh.primitives, vec![0]);
    assert_eq!(bvh.parents, vec![0]);
    assert_eq!(bvh.global, (1, 2));
}

#[test]
fn bvh_from_counts_leaves_and_internal_nodes() {
    for n in [2u64, 3, 7, 50] {
        let bvh = Bvh::from(&leaves_from(&grid_cells(n)), (0, 0)).unwrap();
        let n = n as usize;
        assert_eq!(bvh.num_leaves as usize, n);
        assert_eq!(bvh.nodes.len(), n);
        assert_eq!(bvh.ranges.len() - n, n - 1);
        assert_eq!(bvh.parents.len(), 2 * n - 1);
        assert_eq!(bvh.siblings.len(), 2 * n - 1);
        assert_children_partition(&bvh.ranges, &bvh.parents, n);
    }
}

#[test]
fn bvh_from_orders_leaves_by_key() {
    let cells = vec![cell(5, 5, 5), cell(0, 0, 0), cell(2, 0, 0)];
    let bvh = Bvh::from(&leaves_from(&cells), (0, 0)).unwrap();
    assert_eq!(bvh.mask, 3);
    // codes: leaf 0 -> 0b111_000_111 = 455, leaf 1 -> 0, leaf 2 -> 8
    assert_eq!(bvh.code_ids, vec![1, (8 << 2) | 2, 455 << 2]);
    assert_eq!(bvh.primitives, vec![1, 2, 0]);
    for (p, node) in bvh.nodes.iter().enumerate() {
        assert_eq!(node.code, bvh.code_ids[p]);
        let id = (node.code & bvh.mask) as usize;
        assert_eq!(node.box_, (cells[id].x, cells[id].y));
    }
}
