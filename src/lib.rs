//! Spatial index over static triangles: Morton-ordered leaves and a
//! radix-tree topology derived from the sorted keys.

pub mod bit_packing;
pub mod bvh;
pub mod morton;
pub mod prefix;
pub mod radix_tree;
