use lightmapper::glim::seams::{bilinear_neighbors, collect_edges, Edge, Vector2Int};
use lightmapper::stilb::seams::{collect_sorted_edges, Edge as SortedEdge, Vector2Int as PixelPos};

fn pairs(edges: &[Edge]) -> Vec<(u32, u32)> {
    edges.iter().map(|e| (e.a, e.b)).collect()
}

#[test]
fn shared_sides_are_listed_once() {
    let edges = collect_edges(&[0, 1, 2, 2, 1, 3]);
    assert_eq!(pairs(&edges), vec![(0, 1), (1, 2), (2, 0), (1, 3), (3, 2)]);
}

#[test]
fn trailing_partial_triangle_is_ignored() {
    let edges = collect_edges(&[0, 1, 2, 5]);
    assert_eq!(pairs(&edges), vec![(0, 1), (1, 2), (2, 0)]);
    assert!(collect_edges(&[4, 5]).is_empty());
    assert!(collect_edges(&[]).is_empty());
}

#[test]
fn undirected_edge_equality() {
    assert!(Edge::new(1, 2) == Edge::new(2, 1));
    assert!(Edge::new(1, 2) != Edge::new(1, 3));
    assert_eq!(Edge::new(7, 3).key(), (3, 7));
    assert_eq!(Edge::new(3, 7).key(), (3, 7));
}

#[test]
fn sorted_edges_have_lower_vertex_first() {
    let edges = collect_sorted_edges(&[0, 1, 2, 2, 1, 3]);
    let got: Vec<(u32, u32)> = edges.iter().map(|e| (e.i0, e.i1)).collect();
    assert_eq!(got, vec![(0, 1), (1, 2), (0, 2), (1, 3), (2, 3)]);
    assert_eq!(SortedEdge::new_sorted(9, 4), SortedEdge { i0: 4, i1: 9 });
    assert_eq!(SortedEdge::new_sorted(4, 9), SortedEdge { i0: 4, i1: 9 });
}

#[test]
fn bilinear_neighbors_wrap_and_clamp() {
    let (wrapped, clamped) = bilinear_neighbors(-1, 3, 4, 4);
    assert_eq!(
        wrapped,
        [Vector2Int::new(3, 3), Vector2Int::new(0, 3), Vector2Int::new(0, 0), Vector2Int::new(3, 0)]
    );
    assert_eq!(
        clamped,
        [Vector2Int::new(0, 3), Vector2Int::new(0, 3), Vector2Int::new(0, 3), Vector2Int::new(0, 3)]
    );
    let (wrapped, clamped) = bilinear_neighbors(1, 1, 8, 8);
    assert_eq!(wrapped, clamped);
    assert_eq!(wrapped[2], Vector2Int::new(2, 2));
}

#[test]
fn pixel_positions() {
    let p = PixelPos::new(-3, 4);
    assert_eq!((p.x, p.y), (-3, 4));
    assert_eq!(Vector2Int::new(1, 2), Vector2Int { x: 1, y: 2 });
}
