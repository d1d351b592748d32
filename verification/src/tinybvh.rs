//! What the bounding volume hierarchy builder hands back.
use vstd::prelude::*;

verus! {

/// The builder's opaque handle type; values of it exist only behind the
/// builder's pointers.
pub struct BVHHandle {
    _private: [u8; 0],
}

/// A built hierarchy copied out of the builder: node and triangle bytes in
/// the layout the traversal shader reads, and their counts.
pub struct CwbvhData {
    pub nodes: Vec<u8>,
    pub triangles: Vec<u8>,
    pub node_count: u32,
    pub triangle_count: u32,
}

} // verus!
