use extremal::adjacency::AdjacencyMatrix;
use extremal::clique::{NeighborSet, count_cliques};
use extremal::histogram::{CliqueHistogram, tier_key};

fn make_k5() -> AdjacencyMatrix {
    let mut g = AdjacencyMatrix::new(5);
    for i in 0..5u32 {
        for j in (i + 1)..5 {
            g.set_edge(i, j, true);
        }
    }
    g
}

fn make_c5() -> AdjacencyMatrix {
    let mut g = AdjacencyMatrix::new(5);
    g.set_edge(0, 1, true);
    g.set_edge(1, 2, true);
    g.set_edge(2, 3, true);
    g.set_edge(3, 4, true);
    g.set_edge(0, 4, true);
    g
}

#[test]
fn k5_histogram() {
    let g = make_k5();
    let hist = CliqueHistogram::compute(&g, 5);
    assert_eq!(hist.tiers.len(), 3);
    assert_eq!(hist.tier(3).unwrap().red, 10);
    assert_eq!(hist.tier(3).unwrap().blue, 0);
    assert_eq!(hist.tier(4).unwrap().red, 5);
    assert_eq!(hist.tier(5).unwrap().red, 1);
    assert!(!hist.is_valid_ramsey(5, 5));
}

#[test]
fn c5_histogram() {
    let g = make_c5();
    let hist = CliqueHistogram::compute(&g, 5);
    assert!(hist.tiers.is_empty() || hist.tier(3).unwrap().red == 0);
}

#[test]
fn empty_graph_histogram() {
    let g = AdjacencyMatrix::new(5);
    let hist = CliqueHistogram::compute(&g, 5);
    assert_eq!(hist.tier(3).unwrap().red, 0);
    assert_eq!(hist.tier(3).unwrap().blue, 10);
    assert_eq!(hist.tier(5).unwrap().blue, 1);
}

#[test]
fn valid_ramsey_check() {
    let g = make_c5();
    let hist = CliqueHistogram::compute(&g, 5);
    assert!(hist.is_valid_ramsey(3, 3));
    let g2 = make_k5();
    let hist2 = CliqueHistogram::compute(&g2, 5);
    assert!(!hist2.is_valid_ramsey(5, 5));
}

#[test]
fn histogram_consistent_with_clique_counting() {
    let mut g = AdjacencyMatrix::new(10);
    g.set_edge(0, 1, true);
    g.set_edge(1, 2, true);
    g.set_edge(0, 2, true);
    g.set_edge(3, 4, true);
    g.set_edge(4, 5, true);
    g.set_edge(3, 5, true);

    let hist = CliqueHistogram::compute(&g, 5);

    let adj_nbrs = NeighborSet::from_adj(&g);
    let comp = g.complement();
    let comp_nbrs = NeighborSet::from_adj(&comp);

    let red_3 = count_cliques(&adj_nbrs, 3, 10);
    let blue_3 = count_cliques(&comp_nbrs, 3, 10);

    let tier3 = hist.tier(3).expect("should have k=3 tier");
    assert_eq!(tier3.red, red_3);
    assert_eq!(tier3.blue, blue_3);
    assert_eq!(red_3, 2, "two triangles in graph");
}

#[test]
fn trailing_empty_tiers_trimmed() {
    // C5 has no triangles in either colour: every tier is empty.
    let hist = CliqueHistogram::compute(&make_c5(), 7);
    assert!(hist.tiers.is_empty());
    assert_eq!(hist.max_k(), None);
    assert_eq!(hist.n, 5);
    // K5 up to 7: tiers 3..5 kept, 6 and 7 trimmed.
    let hist = CliqueHistogram::compute(&make_k5(), 7);
    assert_eq!(hist.max_k(), Some(5));
    assert!(hist.tier(6).is_none());
    // below 3 nothing is computed
    assert!(CliqueHistogram::compute(&make_k5(), 2).tiers.is_empty());
}

#[test]
fn ramsey_validity_uses_both_colours() {
    let hist = CliqueHistogram::compute(&AdjacencyMatrix::new(5), 5);
    assert!(!hist.is_valid_ramsey(3, 3));
    assert!(hist.is_valid_ramsey(3, 6));
}

#[test]
fn tier_key_orders_pair() {
    assert_eq!(tier_key(5, 3), (5, 3));
    assert_eq!(tier_key(3, 5), (5, 3));
    assert_eq!(tier_key(4, 4), (4, 4));
}
