use extremal::cid::compute_cid;
use extremal::clique::{NeighborSet, count_cliques};
use extremal::lns::{LnsConfig, LnsSearch};

fn config(k: u32, ell: u32, block_size: u32) -> LnsConfig {
    LnsConfig { k, ell, block_size, polish_max_steps: 0, polish_tabu_tenure: 25 }
}

#[test]
fn lns_finds_valid_r33_n5() {
    let result = LnsSearch.search(5, 100_000, 42, None, &config(3, 3, 4), Vec::new(), compute_cid);
    assert!(result.valid, "LNS should find valid R(3,3) graphs on n=5");
}

#[test]
fn lns_reports_discoveries() {
    let result = LnsSearch.search(5, 100_000, 42, None, &config(3, 3, 4), Vec::new(), compute_cid);
    assert!(!result.discoveries.is_empty(), "LNS should report discoveries");
    for d in &result.discoveries {
        let adj = NeighborSet::from_adj(&d.graph);
        let comp = NeighborSet::from_adj(&d.graph.complement());
        assert_eq!(count_cliques(&adj, 3, 5) + count_cliques(&comp, 3, 5), 0);
    }
}

#[test]
fn lns_respects_iteration_budget() {
    let result = LnsSearch.search(5, 50, 42, None, &config(3, 3, 4), Vec::new(), compute_cid);
    assert!(result.iterations_used <= 50, "should respect iteration budget: used {}", result.iterations_used);
}

#[test]
fn lns_finds_valid_r44_n17() {
    let result = LnsSearch.search(17, 500_000, 42, None, &config(4, 4, 5), Vec::new(), compute_cid);
    assert!(result.valid, "LNS should find valid R(4,4) graphs on n=17");
}

#[test]
fn lns_block_edge_count() {
    assert_eq!(4 * 3 / 2, 6);
    assert_eq!(5 * 4 / 2, 10);
    assert_eq!(6 * 5 / 2, 15);
    assert_eq!(7 * 6 / 2, 21);
}

#[test]
fn lns_spends_whole_blocks() {
    // Block of 4 vertices: 6 pairs, 63 flips per block.
    let result = LnsSearch.search(5, 200, 9, None, &config(3, 3, 4), Vec::new(), compute_cid);
    assert_eq!(result.iterations_used, 189);
}

#[test]
fn lns_defaults() {
    let d = LnsConfig::defaults();
    assert_eq!((d.k, d.ell, d.block_size, d.polish_max_steps, d.polish_tabu_tenure), (5, 5, 6, 100, 25));
}

#[test]
fn lns_skips_known_cids() {
    let first = LnsSearch.search(5, 100_000, 42, None, &config(3, 3, 4), Vec::new(), compute_cid);
    let known: Vec<_> = first.discoveries.iter().map(|d| compute_cid(&d.graph)).collect();
    let again = LnsSearch.search(5, 100_000, 42, None, &config(3, 3, 4), known.clone(), compute_cid);
    assert!(again.valid, "the valid seed keeps the round valid");
    for d in &again.discoveries {
        assert!(!known.contains(&compute_cid(&d.graph)));
    }
}
