use carrier_net::Point3Bits;
use carrier_net::graph::Edge;
use carrier_net::graph::GraphStore;

fn p(x: f32, y: f32, z: f32) -> Point3Bits {
    Point3Bits { x: x.to_bits(), y: y.to_bits(), z: z.to_bits() }
}

fn square_positions() -> Vec<Point3Bits> {
    vec![p(0.0, 0.0, 0.0), p(1.0, 0.0, 0.0), p(1.0, 1.0, 0.0), p(0.0, 1.0, 0.0)]
}

fn square_pairs() -> Vec<(usize, usize)> {
    vec![(0, 1), (1, 2), (2, 3), (3, 0)]
}

fn find_edge(g: &GraphStore, a: usize, b: usize) -> Option<Edge> {
    g.edges.iter().copied().find(|e| e.src == a && e.dest == b)
}

#[test]
fn builds_adjacency_both_ways() {
    let g = GraphStore::new(square_positions(), &square_pairs());
    assert_eq!(g.edges.len(), 4);
    for e in g.edges.iter() {
        assert_eq!(e.hop_count, 0);
        assert!(!e.synthetic);
    }
    assert!(g.neighbors[0].contains(&1));
    assert!(g.neighbors[0].contains(&3));
    assert!(g.neighbors[1].contains(&0));
    assert!(g.neighbors[1].contains(&2));
    assert_eq!(g.neighbors[0].len(), 2);
}

#[test]
fn duplicate_pairs_collapse() {
    let g = GraphStore::new(square_positions(), &vec![(0, 1), (0, 1), (0, 1)]);
    assert_eq!(g.edges.len(), 1);
    assert_eq!(g.neighbors[0], vec![1]);
    assert_eq!(g.neighbors[1], vec![0]);
}

#[test]
fn rewire_resets_and_removes() {
    let mut g = GraphStore::new(square_positions(), &square_pairs());
    for _ in 0..5 {
        g.increment_hop(0, 1);
    }
    assert_eq!(find_edge(&g, 0, 1).unwrap().hop_count, 5);
    g.rewire(0, 1, 2, 3);
    assert!(find_edge(&g, 0, 1).is_none());
    let e02 = find_edge(&g, 0, 2).unwrap();
    assert_eq!(e02.hop_count, 0);
    assert!(e02.synthetic);
    let e13 = find_edge(&g, 1, 3).unwrap();
    assert_eq!(e13.hop_count, 0);
    assert!(e13.synthetic);
}

#[test]
fn rewire_permits_self_loops() {
    let mut g = GraphStore::new(square_positions(), &square_pairs());
    g.rewire(0, 1, 0, 0);
    let e00 = find_edge(&g, 0, 0).unwrap();
    assert!(e00.synthetic);
    assert_eq!(e00.hop_count, 0);
    let e10 = find_edge(&g, 1, 0).unwrap();
    assert!(e10.synthetic);
    assert!(g.neighbors[0].contains(&0));
}

#[test]
fn rewire_draw_on_old_destination_leaves_fresh_edge_standing() {
    // The draw for endpoint 0 lands back on the removed key: removal
    // precedes insertion, so the fresh synthetic edge survives.
    let mut g = GraphStore::new(square_positions(), &square_pairs());
    for _ in 0..3 {
        g.increment_hop(0, 1);
    }
    g.rewire(0, 1, 1, 2);
    let e01 = find_edge(&g, 0, 1).unwrap();
    assert!(e01.synthetic);
    assert_eq!(e01.hop_count, 0);
    let e12 = find_edge(&g, 1, 2).unwrap();
    assert!(e12.synthetic);
    assert_eq!(e12.hop_count, 0);
}

#[test]
fn adjacency_symmetric_after_rewires() {
    let mut g = GraphStore::new(square_positions(), &square_pairs());
    g.rewire(0, 1, 2, 3);
    g.rewire(1, 2, 0, 0);
    for e in g.edges.iter() {
        assert!(g.neighbors[e.src].contains(&e.dest));
        assert!(g.neighbors[e.dest].contains(&e.src));
    }
}

#[test]
fn congestion_sweep_breaks_congested_edge() {
    let mut g = GraphStore::new(square_positions(), &square_pairs());
    for _ in 0..5 {
        g.increment_hop(0, 1);
    }
    g.congestion_sweep(5);
    // The congested record is gone; the key itself reappears only if a
    // rewire draw landed back on it, and then as a fresh synthetic edge.
    if let Some(e) = find_edge(&g, 0, 1) {
        assert!(e.synthetic);
        assert_eq!(e.hop_count, 0);
    }
    for e in g.edges.iter() {
        assert!(e.hop_count < 5);
        if e.synthetic {
            assert_eq!(e.hop_count, 0);
            assert!(e.src == 0 || e.src == 1);
        }
    }
    // Removal precedes insertion, so both endpoints keep their fresh edge.
    assert!(g.edges.iter().any(|e| e.synthetic && e.src == 0));
    assert!(g.edges.iter().any(|e| e.synthetic && e.src == 1));
    // Uncongested edges keep their keys.
    assert!(find_edge(&g, 1, 2).is_some());
    assert!(find_edge(&g, 2, 3).is_some());
    assert!(find_edge(&g, 3, 0).is_some());
}

#[test]
fn congestion_sweep_without_congestion_is_a_noop() {
    let mut g = GraphStore::new(square_positions(), &square_pairs());
    g.increment_hop(0, 1);
    let edges_before = g.edges.clone();
    let neighbors_before = g.neighbors.clone();
    g.congestion_sweep(5);
    assert_eq!(g.edges, edges_before);
    assert_eq!(g.neighbors, neighbors_before);
}

#[test]
fn increment_hop_missing_key_is_a_noop() {
    let mut g = GraphStore::new(square_positions(), &square_pairs());
    let edges_before = g.edges.clone();
    g.increment_hop(1, 0);
    g.increment_hop(9, 9);
    assert_eq!(g.edges, edges_before);
}

#[test]
fn increment_hop_counts_each_direction_independently() {
    let mut g = GraphStore::new(square_positions(), &vec![(0, 1), (1, 0)]);
    g.increment_hop(0, 1);
    g.increment_hop(0, 1);
    assert_eq!(find_edge(&g, 0, 1).unwrap().hop_count, 2);
    assert_eq!(find_edge(&g, 1, 0).unwrap().hop_count, 0);
}

#[test]
fn pick_neighbor_respects_adjacency() {
    let g = GraphStore::new(square_positions(), &square_pairs());
    for _ in 0..20 {
        let d = g.pick_neighbor(0).unwrap();
        assert!(g.neighbors[0].contains(&d));
    }
    let lonely = GraphStore::new(vec![p(0.0, 0.0, 0.0), p(1.0, 0.0, 0.0), p(2.0, 0.0, 0.0)], &vec![(0, 1)]);
    assert!(lonely.pick_neighbor(2).is_none());
}
