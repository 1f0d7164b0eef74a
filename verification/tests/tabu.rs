use extremal::cid::compute_cid;
use extremal::paley::paley_graph;
use extremal::polish::count_violations;
use extremal::search::TabuSearch;
use extremal::tabu::TabuConfig;

fn make_config(n: u32, k: u32, ell: u32) -> TabuConfig {
    let mut cfg = TabuConfig::defaults();
    cfg.k = k;
    cfg.ell = ell;
    cfg.tabu_tenure = (n * 2) as u64;
    cfg
}

#[test]
fn tabu_finds_r33_n5() {
    let cfg = make_config(5, 3, 3);
    let result = TabuSearch.search(5, 50_000, 42, Some(paley_graph(5)), &cfg, Vec::new(), compute_cid);
    assert!(result.valid, "tabu should find valid R(3,3) on 5 vertices");
}

#[test]
fn tabu_finds_r44_n17() {
    let mut cfg = make_config(17, 4, 4);
    cfg.tabu_tenure = 34;
    let result = TabuSearch.search(17, 500_000, 42, Some(paley_graph(17)), &cfg, Vec::new(), compute_cid);
    assert!(result.valid, "tabu should find valid R(4,4) on 17 vertices");
}

#[test]
fn tabu_discovers_multiple_graphs() {
    let cfg = make_config(5, 3, 3);
    let result = TabuSearch.search(5, 50_000, 42, Some(paley_graph(5)), &cfg, Vec::new(), compute_cid);
    assert!(result.valid);
    assert!(
        result.discoveries.len() >= 1,
        "should discover at least 1 valid graph, got {}",
        result.discoveries.len()
    );
}

#[test]
fn tabu_focused_r33_n5() {
    let mut cfg = make_config(5, 3, 3);
    cfg.tabu_tenure = 10;
    cfg.focused = true;
    let result = TabuSearch.search(5, 50_000, 42, Some(paley_graph(5)), &cfg, Vec::new(), compute_cid);
    assert!(result.valid, "focused tabu should find valid R(3,3) on 5 vertices");
}

#[test]
fn tabu_reports_only_valid_graphs_and_spends_the_budget() {
    let cfg = make_config(5, 3, 3);
    let result = TabuSearch.search(5, 2_000, 9, None, &cfg, Vec::new(), compute_cid);
    assert_eq!(result.iterations_used, 2_000);
    for d in &result.discoveries {
        assert_eq!(count_violations(&d.graph, 3, 3), 0);
    }
    let best = result.best_graph.expect("a best graph is always given");
    assert_eq!(count_violations(&best, 3, 3) == 0, result.valid);
}

#[test]
fn tabu_without_steps_keeps_an_invalid_seed() {
    let cfg = make_config(5, 3, 3);
    let mut k5 = extremal::adjacency::AdjacencyMatrix::new(5);
    for u in 0..5 {
        for v in (u + 1)..5 {
            k5.set_edge(u, v, true);
        }
    }
    let before = count_violations(&k5, 3, 3);
    let result = TabuSearch.search(5, 0, 1, Some(k5), &cfg, Vec::new(), compute_cid);
    assert!(!result.valid);
    assert_eq!(count_violations(&result.best_graph.unwrap(), 3, 3), before);
}

#[test]
fn tabu_skips_known_cids() {
    let cfg = make_config(5, 3, 3);
    let first = TabuSearch.search(5, 50_000, 42, Some(paley_graph(5)), &cfg, Vec::new(), compute_cid);
    let known: Vec<_> = first.discoveries.iter().map(|d| compute_cid(&d.graph)).collect();
    let again = TabuSearch.search(5, 50_000, 42, Some(paley_graph(5)), &cfg, known.clone(), compute_cid);
    assert!(again.valid);
    for d in &again.discoveries {
        assert!(!known.contains(&compute_cid(&d.graph)));
    }
}
