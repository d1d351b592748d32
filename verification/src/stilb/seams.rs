//! The mesh edges that seam detection compares, each stored with its lower
//! vertex first, and integer pixel positions.
use vstd::prelude::*;
use crate::glim::seams::{collect_edges, edge_list, has_edge, same_edge, triangle_edge};

verus! {

/// A mesh edge stored with its lower vertex index first.
#[derive(Clone, Copy, Debug, PartialEq, Eq, Structural, Hash)]
pub struct Edge {
    pub i0: u32,
    pub i1: u32,
}

impl Edge {
    /// The edge between `i0` and `i1`, lower index first.
    pub fn new_sorted(i0: u32, i1: u32) -> (e: Edge)
        ensures
            e.i0 <= e.i1,
            same_edge(e.i0, e.i1, i0, i1),
    {
        if i0 < i1 {
            Edge { i0, i1 }
        } else {
            Edge { i0: i1, i1: i0 }
        }
    }
}

/// The sides of the complete triangles of `indices`, each once, lower vertex
/// first.
pub fn collect_sorted_edges(indices: &[u32]) -> (edges: Vec<Edge>)
    ensures
        forall|k: int| 0 <= k < edges@.len() ==> (#[trigger] edges@[k]).i0 <= edges@[k].i1,
        forall|k: int| 0 <= k < edges@.len() ==> triangle_edge(indices@, (#[trigger] edges@[k]).i0, edges@[k].i1),
        forall|a: u32, b: u32|
            #[trigger] triangle_edge(indices@, a, b) ==> exists|k: int|
                0 <= k < edges@.len() && same_edge(#[trigger] edges@[k].i0, edges@[k].i1, a, b),
        forall|j: int, k: int| 0 <= j < k < edges@.len() ==> #[trigger] edges@[j] != #[trigger] edges@[k],
{
    let undirected = collect_edges(indices);
    let mut edges: Vec<Edge> = Vec::new();
    let mut k: usize = 0;
    while k < undirected.len()
        invariant
            k <= undirected@.len(),
            edge_list(indices@, undirected@),
            edges@.len() == k,
            forall|j: int|
                0 <= j < k ==> (#[trigger] edges@[j]).i0 <= edges@[j].i1 && same_edge(
                    edges@[j].i0,
                    edges@[j].i1,
                    undirected@[j].a,
                    undirected@[j].b,
                ),
        decreases undirected@.len() - k,
    {
        let e = undirected[k];
        edges.push(Edge::new_sorted(e.a, e.b));
        k = k + 1;
    }
    proof {
        assert forall|k: int| 0 <= k < edges@.len() implies triangle_edge(indices@, (#[trigger] edges@[k]).i0, edges@[k].i1) by {
            let u = undirected@[k];
            assert(triangle_edge(indices@, u.a, u.b));
            let t = choose|t: int| 0 <= t && 3 * t + 2 < indices@.len() && #[trigger] crate::glim::seams::side_of(indices@, t, u.a, u.b);
            assert(crate::glim::seams::side_of(indices@, t, edges@[k].i0, edges@[k].i1));
        }
        assert forall|a: u32, b: u32| #[trigger] triangle_edge(indices@, a, b) implies exists|k: int|
            0 <= k < edges@.len() && same_edge(#[trigger] edges@[k].i0, edges@[k].i1, a, b) by {
            assert(has_edge(undirected@, a, b));
            let k = choose|k: int| 0 <= k < undirected@.len() && same_edge(#[trigger] undirected@[k].a, undirected@[k].b, a, b);
            assert(same_edge(edges@[k].i0, edges@[k].i1, a, b));
        }
        assert forall|j: int, k: int| 0 <= j < k < edges@.len() implies #[trigger] edges@[j] != #[trigger] edges@[k] by {
            assert(!same_edge(undirected@[j].a, undirected@[j].b, undirected@[k].a, undirected@[k].b));
        }
    }
    edges
}

/// An integer pixel position.
#[derive(Clone, Copy, Debug, PartialEq, Eq, Structural, Hash)]
pub struct Vector2Int {
    pub x: i32,
    pub y: i32,
}

impl Vector2Int {
    pub fn new(x: i32, y: i32) -> (v: Vector2Int)
        ensures
            v.x == x,
            v.y == y,
    {
        Vector2Int { x, y }
    }
}

} // verus!
