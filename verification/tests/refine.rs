use extremal::adjacency::AdjacencyMatrix;
use extremal::clique::{NeighborSet, count_cliques};
use extremal::paley::paley_graph;
use extremal::refine::RefineConfig;
use extremal::search::RefineSearch;

fn make_config(k: u32, ell: u32) -> RefineConfig {
    RefineConfig { k, ell, polish_max_steps: 50, polish_tabu_tenure: 15, ils_restarts: 2, ils_perturb: 2 }
}

#[test]
fn refine_r33_n5() {
    let cfg = make_config(3, 3);
    let result = RefineSearch.search(5, 100_000, 42, Some(paley_graph(5)), &cfg);
    assert!(result.valid);
    assert!(result.best_graph.is_some());
    let best = result.best_graph.unwrap();
    let adj = NeighborSet::from_adj(&best);
    let comp = NeighborSet::from_adj(&best.complement());
    assert_eq!(count_cliques(&adj, 3, 5), 0);
    assert_eq!(count_cliques(&comp, 3, 5), 0);
}

#[test]
fn refine_r44_n17() {
    let cfg = make_config(4, 4);
    let result = RefineSearch.search(17, 100_000, 42, Some(paley_graph(17)), &cfg);
    assert!(result.valid);
    assert!(result.best_graph.is_some());
    let best = result.best_graph.unwrap();
    let adj = NeighborSet::from_adj(&best);
    let comp = NeighborSet::from_adj(&best.complement());
    assert_eq!(count_cliques(&adj, 4, 17), 0);
    assert_eq!(count_cliques(&comp, 4, 17), 0);
}

#[test]
fn refine_reports_discoveries() {
    let cfg = make_config(4, 4);
    let result = RefineSearch.search(17, 100_000, 42, Some(paley_graph(17)), &cfg);
    for d in &result.discoveries {
        let adj = NeighborSet::from_adj(&d.graph);
        let comp = NeighborSet::from_adj(&d.graph.complement());
        assert_eq!(count_cliques(&adj, 4, 17) + count_cliques(&comp, 4, 17), 0);
    }
}

#[test]
fn refine_carry_state_persists() {
    let cfg = make_config(4, 4);
    let first = RefineSearch.search(17, 100_000, 42, Some(paley_graph(17)), &cfg);
    let second = RefineSearch.search(17, 100_000, 42, Some(paley_graph(17)), &cfg);
    let disc1 = first.discoveries.len();
    let disc2 = second.discoveries.len();
    assert!(disc2 <= disc1, "a repeated round reports no more than the first: round1={disc1} round2={disc2}");
}

#[test]
fn refine_invalid_seed_skips() {
    let mut graph = AdjacencyMatrix::new(10);
    for u in 0..10 {
        for v in (u + 1)..10 {
            graph.set_edge(u, v, true);
        }
    }
    let cfg = make_config(5, 5);
    let result = RefineSearch.search(10, 100_000, 42, Some(graph), &cfg);
    assert!(!result.valid);
    assert!(result.best_graph.is_none());
    assert_eq!(result.iterations_used, 0);
    assert!(result.discoveries.is_empty());
}

#[test]
fn refine_spends_the_whole_budget_on_a_valid_seed() {
    let cfg = make_config(3, 3);
    let result = RefineSearch.search(5, 1234, 7, None, &cfg);
    assert!(result.valid);
    assert_eq!(result.iterations_used, 1234);
}
