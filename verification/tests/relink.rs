use extremal::adjacency::AdjacencyMatrix;
use extremal::cid::compute_cid;
use extremal::clique::{NeighborSet, count_cliques};
use extremal::construct::ConstructConfig;
use extremal::paley::paley_graph;
use extremal::relink::{RelinkConfig, RelinkState};
use extremal::search::{ConstructSearch, RelinkSearch, SearchResult};
use extremal::types::GraphCid;

fn make_config(k: u32, ell: u32) -> RelinkConfig {
    RelinkConfig { k, ell, pool_capacity: 50, max_violations: 2, polish_max_steps: 50, polish_tabu_tenure: 10 }
}

fn cid(g: &AdjacencyMatrix) -> GraphCid {
    compute_cid(g)
}

fn round(
    n: u32,
    max_iters: u64,
    seed: u64,
    init: Option<AdjacencyMatrix>,
    state: RelinkState,
    cfg: &RelinkConfig,
) -> (SearchResult, RelinkState) {
    RelinkSearch.search(n, max_iters, seed, init, state, cid, cfg)
}

/// C4 and a perfect matching on 4 vertices: both triangle-free with
/// triangle-free complements, and not isomorphic.
fn two_r33_graphs() -> (AdjacencyMatrix, AdjacencyMatrix) {
    let mut a = AdjacencyMatrix::new(4);
    a.set_edge(0, 1, true);
    a.set_edge(1, 2, true);
    a.set_edge(2, 3, true);
    a.set_edge(3, 0, true);
    let mut b = AdjacencyMatrix::new(4);
    b.set_edge(0, 1, true);
    b.set_edge(2, 3, true);
    (a, b)
}

fn pooled(graphs: Vec<AdjacencyMatrix>) -> RelinkState {
    let mut state = RelinkState::new();
    for g in graphs {
        state.pool_cids.push(cid(&g));
        state.pool.push(g);
    }
    state
}

fn is_valid(g: &AdjacencyMatrix, k: u32, ell: u32) -> bool {
    let n = g.n();
    let adj = NeighborSet::from_adj(g);
    let comp = NeighborSet::from_adj(&g.complement());
    count_cliques(&adj, k, n) + count_cliques(&comp, ell, n) == 0
}

#[test]
fn relink_accumulates_pool() {
    let (a, _) = two_r33_graphs();
    let cfg = make_config(3, 3);
    let (result, state) = round(4, 100_000, 42, Some(a), RelinkState::new(), &cfg);
    assert_eq!(state.pool.len(), 1);
    assert!(!result.valid);
    assert_eq!(result.iterations_used, 0);
}

#[test]
fn relink_starts_with_two_graphs() {
    let (a, b) = two_r33_graphs();
    let cfg = make_config(3, 3);
    let (r1, state) = round(4, 100_000, 42, Some(a), RelinkState::new(), &cfg);
    assert_eq!(r1.iterations_used, 0);
    let (r2, _state) = round(4, 100_000, 99, Some(b), state, &cfg);
    assert!(r2.iterations_used > 0, "should have done relinking work");
}

#[test]
fn relink_finds_valid_intermediates() {
    let (a, b) = two_r33_graphs();
    let cfg = make_config(3, 3);
    let (result, _state) = round(4, 100_000, 42, None, pooled(vec![a, b]), &cfg);
    assert!(result.valid, "should find valid R(3,3) intermediates");
    assert!(!result.discoveries.is_empty(), "should discover valid intermediate graphs");
    for d in &result.discoveries {
        assert!(is_valid(&d.graph, 3, 3));
    }
}

#[test]
fn relink_carry_state_persists_pool() {
    let (a, b) = two_r33_graphs();
    let cfg = make_config(3, 3);
    let (_result, state) = round(4, 100_000, 42, None, pooled(vec![a, b]), &cfg);
    assert!(state.pool.len() >= 2);
}

#[test]
fn relink_respects_budget() {
    let (a, b) = two_r33_graphs();
    let cfg = make_config(3, 3);
    let (result, _state) = round(4, 50, 42, None, pooled(vec![a, b]), &cfg);
    assert!(result.iterations_used <= 60);
}

#[test]
fn relink_r44_n17() {
    let paley = paley_graph(17);
    let mut ccfg = ConstructConfig::defaults();
    ccfg.k = 4;
    ccfg.ell = 4;
    ccfg.repair_threshold = 20;
    ccfg.repair_max_iters = 50_000;
    let cr = ConstructSearch.search(17, 500_000, 7, &ccfg, Vec::new(), compute_cid);
    if !cr.valid {
        return;
    }
    let other = cr.best_graph.unwrap();
    let mut cfg = make_config(4, 4);
    cfg.max_violations = 5;
    let (result, _state) = round(17, 1_000_000, 42, None, pooled(vec![paley, other]), &cfg);
    assert!(result.iterations_used > 0, "should have done relinking work on n=17");
}

#[test]
fn relink_known_seed_is_not_pooled_twice() {
    let (a, _) = two_r33_graphs();
    let cfg = make_config(3, 3);
    let (_r, state) = round(4, 100_000, 42, Some(a.clone()), RelinkState::new(), &cfg);
    let (_r, state) = round(4, 100_000, 43, Some(a), state, &cfg);
    assert_eq!(state.pool.len(), 1);
    assert_eq!(state.pool_cids.len(), 1);
}

#[test]
fn relink_explores_each_pair_once_then_resets() {
    let (a, b) = two_r33_graphs();
    let cfg = make_config(3, 3);
    let (_r, state) = round(4, 100_000, 42, None, pooled(vec![a, b]), &cfg);
    // the only pair was explored in full, so the explored set starts over
    assert!(state.explored_pairs.is_empty());
}
