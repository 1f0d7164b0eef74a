use extremal::adjacency::AdjacencyMatrix;
use extremal::clique::{
    NeighborSet, count_cliques, count_cliques_through_edge, count_cliques_through_edge_assuming,
    fast_fingerprint, violation_delta,
};
use extremal::guilty::guilty_edges;

fn make_k5() -> AdjacencyMatrix {
    let mut g = AdjacencyMatrix::new(5);
    for i in 0..5u32 {
        for j in (i + 1)..5 {
            g.set_edge(i, j, true);
        }
    }
    g
}

fn make_c5() -> AdjacencyMatrix {
    let mut g = AdjacencyMatrix::new(5);
    g.set_edge(0, 1, true);
    g.set_edge(1, 2, true);
    g.set_edge(2, 3, true);
    g.set_edge(3, 4, true);
    g.set_edge(0, 4, true);
    g
}

#[test]
fn k5_has_one_5clique() {
    let g = make_k5();
    let nbrs = NeighborSet::from_adj(&g);
    assert_eq!(count_cliques(&nbrs, 5, 5), 1);
    assert_eq!(count_cliques(&nbrs, 4, 5), 5);
    assert_eq!(count_cliques(&nbrs, 3, 5), 10);
    assert_eq!(count_cliques(&nbrs, 2, 5), 10);
    assert_eq!(count_cliques(&nbrs, 1, 5), 5);
}

#[test]
fn c5_has_no_triangles() {
    let g = make_c5();
    let nbrs = NeighborSet::from_adj(&g);
    assert_eq!(count_cliques(&nbrs, 3, 5), 0);
    assert_eq!(count_cliques(&nbrs, 2, 5), 5);
}

#[test]
fn empty_graph_no_cliques() {
    let g = AdjacencyMatrix::new(10);
    let nbrs = NeighborSet::from_adj(&g);
    assert_eq!(count_cliques(&nbrs, 3, 10), 0);
    assert_eq!(count_cliques(&nbrs, 2, 10), 0);
}

#[test]
fn cliques_through_edge_k5() {
    let g = make_k5();
    let nbrs = NeighborSet::from_adj(&g);
    assert_eq!(count_cliques_through_edge(&nbrs, 5, 0, 1), 1);
    assert_eq!(count_cliques_through_edge(&nbrs, 4, 0, 1), 3);
    assert_eq!(count_cliques_through_edge(&nbrs, 3, 0, 1), 3);
}

#[test]
fn violation_delta_flipping_edge_in_k5() {
    let g = make_k5();
    let comp = g.complement();
    let adj_nbrs = NeighborSet::from_adj(&g);
    let comp_nbrs = NeighborSet::from_adj(&comp);

    let (dk, de) = violation_delta(&adj_nbrs, &comp_nbrs, 5, 5, 0, 1);
    assert!(dk < 0, "removing edge should reduce k-cliques");
    assert_eq!(dk, -1, "K5 has exactly one 5-clique through any edge");
    assert_eq!(de, 0);
}

#[test]
fn fingerprint_deterministic() {
    let g = make_c5();
    let masks = g.neighbor_masks();
    let fp1 = fast_fingerprint(&masks);
    let fp2 = fast_fingerprint(&masks);
    assert_eq!(fp1, fp2);
}

#[test]
fn fingerprint_different_graphs() {
    let g1 = make_k5();
    let g2 = make_c5();
    let fp1 = fast_fingerprint(&g1.neighbor_masks());
    let fp2 = fast_fingerprint(&g2.neighbor_masks());
    assert_ne!(fp1, fp2);
}

#[test]
fn guilty_edges_of_k5() {
    let g = make_k5();
    let comp = g.complement();
    let adj_nbrs = NeighborSet::from_adj(&g);
    let comp_nbrs = NeighborSet::from_adj(&comp);
    let guilty = guilty_edges(&adj_nbrs, &comp_nbrs, 5, 5, 5);
    assert_eq!(guilty.len(), 10);
}

#[test]
fn guilty_edges_of_empty_graph() {
    let g = AdjacencyMatrix::new(5);
    let comp = g.complement();
    let adj_nbrs = NeighborSet::from_adj(&g);
    let comp_nbrs = NeighborSet::from_adj(&comp);
    let guilty = guilty_edges(&adj_nbrs, &comp_nbrs, 5, 5, 5);
    assert_eq!(guilty.len(), 10);
}

#[test]
fn guilty_edges_are_exactly_the_triangle_edges() {
    // A triangle 0-1-2 plus a pendant edge 2-3 on 6 vertices: for k = 3 the
    // guilty red edges are the triangle's; ell = 6 admits no blue clique.
    let mut g = AdjacencyMatrix::new(6);
    g.set_edge(0, 1, true);
    g.set_edge(1, 2, true);
    g.set_edge(0, 2, true);
    g.set_edge(2, 3, true);
    let comp = g.complement();
    let adj_nbrs = NeighborSet::from_adj(&g);
    let comp_nbrs = NeighborSet::from_adj(&comp);
    let guilty = guilty_edges(&adj_nbrs, &comp_nbrs, 3, 6, 6);
    assert_eq!(guilty, vec![(0, 1), (0, 2), (1, 2)]);
    // k = 2 marks every edge, in row-major order
    let all = guilty_edges(&adj_nbrs, &comp_nbrs, 2, 7, 6);
    assert_eq!(all, vec![(0, 1), (0, 2), (1, 2), (2, 3)]);
}

#[test]
fn what_if_counts_and_deltas() {
    // C5 plus the chord 0-2 has one triangle, through the chord.
    let mut g = make_c5();
    let nbrs = NeighborSet::from_adj(&g);
    assert_eq!(count_cliques_through_edge(&nbrs, 3, 0, 2), 0);
    assert_eq!(count_cliques_through_edge_assuming(&nbrs, 3, 0, 2, true), 1);
    assert_eq!(count_cliques_through_edge_assuming(&nbrs, 3, 0, 1, false), 0);
    assert_eq!(count_cliques_through_edge_assuming(&nbrs, 2, 0, 2, true), 1);
    let comp = g.complement();
    let comp_nbrs = NeighborSet::from_adj(&comp);
    let (dk, de) = violation_delta(&nbrs, &comp_nbrs, 3, 3, 0, 2);
    let before = count_cliques(&nbrs, 3, 5) as i64;
    g.set_edge(0, 2, true);
    let after = count_cliques(&NeighborSet::from_adj(&g), 3, 5) as i64;
    assert_eq!(dk, after - before);
    assert_eq!(dk, 1);
    let blue_before = count_cliques(&comp_nbrs, 3, 5) as i64;
    let blue_after = count_cliques(&NeighborSet::from_adj(&g.complement()), 3, 5) as i64;
    assert_eq!(de, blue_after - blue_before);
}

#[test]
fn flip_edge_twice_restores() {
    let g = make_c5();
    let mut nbrs = NeighborSet::from_adj(&g);
    let before = nbrs.masks.clone();
    nbrs.flip_edge(1, 3);
    assert!(nbrs.has_edge(1, 3) && nbrs.has_edge(3, 1));
    nbrs.flip_edge(1, 3);
    assert_eq!(nbrs.masks, before);
}

#[test]
fn fingerprint_of_empty_is_offset_basis() {
    assert_eq!(fast_fingerprint(&[]), 0xcbf29ce484222325);
    assert_eq!(fast_fingerprint(&[0]), 0xcbf29ce484222325u64.wrapping_mul(0x100000001b3));
}

#[test]
fn violation_delta_matches_recount_after_flip() {
    // A lopsided graph on 8 vertices: a 5-clique plus a path.
    let mut g = AdjacencyMatrix::new(8);
    for u in 0..5u32 {
        for v in (u + 1)..5u32 {
            g.set_edge(u, v, true);
        }
    }
    g.set_edge(4, 5, true);
    g.set_edge(5, 6, true);
    g.set_edge(6, 7, true);
    for (k, ell) in [(3u32, 3u32), (4, 3), (3, 4), (4, 4), (2, 5)] {
        for u in 0..8u32 {
            for v in (u + 1)..8u32 {
                let adj = NeighborSet::from_adj(&g);
                let comp = NeighborSet::from_adj(&g.complement());
                let (dk, de) = violation_delta(&adj, &comp, k, ell, u, v);
                let kc = count_cliques(&adj, k, 8) as i64;
                let ei = count_cliques(&comp, ell, 8) as i64;
                let mut h = g.clone();
                h.set_edge(u, v, !g.edge(u, v));
                let kc2 = count_cliques(&NeighborSet::from_adj(&h), k, 8) as i64;
                let ei2 = count_cliques(&NeighborSet::from_adj(&h.complement()), ell, 8) as i64;
                assert_eq!(kc2 - kc, dk, "k={k} pair=({u},{v})");
                assert_eq!(ei2 - ei, de, "ell={ell} pair=({u},{v})");
            }
        }
    }
}

#[test]
fn count_cliques_on_sixty_four_vertices() {
    // The complete graph on 64 vertices: C(64, 2) edges, C(64, 3) triangles.
    let mut g = AdjacencyMatrix::new(64);
    for i in 0..64u32 {
        for j in (i + 1)..64u32 {
            g.set_edge(i, j, true);
        }
    }
    let nbrs = NeighborSet::from_adj(&g);
    assert_eq!(count_cliques(&nbrs, 2, 64), 2016);
    assert_eq!(count_cliques(&nbrs, 3, 64), 41664);
    let empty = NeighborSet::from_adj(&AdjacencyMatrix::new(64));
    assert_eq!(count_cliques(&empty, 2, 64), 0);
}

#[test]
fn adding_an_edge_adds_the_cliques_through_it() {
    // K5 without the edge 0-1: adding it back creates the triangles on its
    // three common neighbours and the three 4-cliques among them.
    let mut g = AdjacencyMatrix::new(5);
    for u in 0..5u32 {
        for v in (u + 1)..5 {
            if (u, v) != (0, 1) {
                g.set_edge(u, v, true);
            }
        }
    }
    let without = NeighborSet::from_adj(&g);
    let mut h = g.clone();
    h.set_edge(0, 1, true);
    let with = NeighborSet::from_adj(&h);
    for k in 3..=5u32 {
        let through = count_cliques_through_edge_assuming(&without, k, 0, 1, true);
        assert_eq!(count_cliques(&with, k, 5), count_cliques(&without, k, 5) + through);
    }
    assert_eq!(count_cliques_through_edge_assuming(&without, 3, 0, 1, true), 3);
    assert_eq!(count_cliques_through_edge_assuming(&without, 4, 0, 1, true), 3);
}
