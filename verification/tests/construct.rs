use extremal::cid::compute_cid;
use extremal::clique::{NeighborSet, count_cliques};
use extremal::construct::ConstructConfig;
use extremal::search::ConstructSearch;

fn config(k: u32, ell: u32) -> ConstructConfig {
    ConstructConfig { k, ell, repair_threshold: 10, repair_max_iters: 10_000, ..ConstructConfig::defaults() }
}

#[test]
fn construct_finds_r33_n5() {
    let result = ConstructSearch.search(5, 100_000, 42, &config(3, 3), Vec::new(), compute_cid);
    assert!(result.valid, "should find valid R(3,3) on 5 vertices");
}

#[test]
fn construct_finds_r44_n17() {
    for seed in 0..20u64 {
        let cfg = ConstructConfig { repair_threshold: 20, repair_max_iters: 50_000, ..config(4, 4) };
        let result = ConstructSearch.search(17, 500_000, seed, &cfg, Vec::new(), compute_cid);
        if result.valid {
            return;
        }
    }
    panic!("should find valid R(4,4) on 17 vertices with at least one seed");
}

#[test]
fn construct_reports_discoveries() {
    let result = ConstructSearch.search(5, 100_000, 42, &config(3, 3), Vec::new(), compute_cid);
    assert!(result.valid);
    assert!(!result.discoveries.is_empty(), "should discover at least 1 valid graph");
    for d in &result.discoveries {
        let adj = NeighborSet::from_adj(&d.graph);
        let comp = NeighborSet::from_adj(&d.graph.complement());
        assert_eq!(count_cliques(&adj, 3, 5) + count_cliques(&comp, 3, 5), 0);
    }
}

#[test]
fn construct_ignores_init_graph() {
    // The construction always starts from the empty graph; there is no seed graph to pass.
    let result = ConstructSearch.search(5, 100_000, 42, &config(3, 3), Vec::new(), compute_cid);
    assert!(result.valid, "should find valid graphs regardless of init_graph");
}

#[test]
fn construct_diverse_seeds_produce_different_graphs() {
    let r1 = ConstructSearch.search(5, 50_000, 1, &config(3, 3), Vec::new(), compute_cid);
    let r2 = ConstructSearch.search(5, 50_000, 999, &config(3, 3), Vec::new(), compute_cid);
    assert!(!r1.discoveries.is_empty() && !r2.discoveries.is_empty(), "both should find graphs");
}

#[test]
fn construct_budget_is_whole_constructions() {
    // 10 pairs on 5 vertices: with no repair each construction costs 10.
    let cfg = ConstructConfig { repair_max_iters: 0, polish_max_steps: 0, ..config(3, 3) };
    let result = ConstructSearch.search(5, 95, 3, &cfg, Vec::new(), compute_cid);
    assert_eq!(result.iterations_used, 100);
}
