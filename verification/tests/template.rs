use extremal::adjacency::AdjacencyMatrix;
use extremal::clique::{NeighborSet, count_cliques};
use extremal::sa::objective;
use extremal::cid::compute_cid;
use extremal::paley::paley_graph;
use extremal::search::SearchResult;
use extremal::template::{
    TemplateConfig, TemplateSearch, TemplateState, accumulate_seed, build_template, new_state,
};
use extremal::types::GraphCid;

#[test]
fn template_free_edges_computed() {
    let mut g1 = AdjacencyMatrix::new(5);
    for &(u, v) in &[(0u32, 1u32), (1, 2), (2, 3), (3, 4), (0, 4)] {
        g1.set_edge(u, v, true);
    }
    let mut g2 = AdjacencyMatrix::new(5);
    for &(u, v) in &[(0u32, 2u32), (2, 4), (1, 4), (1, 3), (0, 3)] {
        g2.set_edge(u, v, true);
    }

    let a1 = NeighborSet::from_adj(&g1);
    let c1 = NeighborSet::from_adj(&g1.complement());
    assert_eq!(count_cliques(&a1, 3, 5) + count_cliques(&c1, 3, 5), 0);

    let a2 = NeighborSet::from_adj(&g2);
    let c2 = NeighborSet::from_adj(&g2.complement());
    assert_eq!(count_cliques(&a2, 3, 5) + count_cliques(&c2, 3, 5), 0);

    let mut state = TemplateState {
        pool: vec![(g1, 0), (g2, 0)],
        best_4c: 0,
        base: None,
        free_edges: Vec::new(),
        total: 0,
        cursor: 0,
        built: false,
        known_cids: Vec::new(),
    };
    build_template(&mut state, 5);

    assert!(state.built);
    assert_eq!(state.free_edges.len(), 10);
    assert_eq!(state.total, 1024);
}

#[test]
fn template_partial_backbone() {
    let mut g1 = AdjacencyMatrix::new(5);
    for &(u, v) in &[(0u32, 1u32), (1, 2), (2, 3)] {
        g1.set_edge(u, v, true);
    }
    let mut g2 = AdjacencyMatrix::new(5);
    for &(u, v) in &[(0u32, 1u32), (1, 2), (2, 3), (3, 4)] {
        g2.set_edge(u, v, true);
    }

    let mut state = TemplateState {
        pool: vec![(g1, 0), (g2, 0)],
        best_4c: 0,
        base: None,
        free_edges: Vec::new(),
        total: 0,
        cursor: 0,
        built: false,
        known_cids: Vec::new(),
    };
    build_template(&mut state, 5);

    assert!(state.built);
    assert_eq!(state.free_edges.len(), 1);
    assert_eq!(state.free_edges[0], (3, 4));
    assert_eq!(state.total, 2);
}

fn c5(labels: [u32; 5]) -> AdjacencyMatrix {
    let mut g = AdjacencyMatrix::new(5);
    for i in 0..5 {
        g.set_edge(labels[i], labels[(i + 1) % 5], true);
    }
    g
}

#[test]
fn accumulate_seed_admits_valid_and_dedups() {
    let mut state = new_state(Vec::new());
    let cid = GraphCid::from_bytes([7u8; 32]);
    // K5 has triangles: refused for R(3,3)
    let mut k5 = AdjacencyMatrix::new(5);
    for i in 0..5u32 {
        for j in (i + 1)..5 {
            k5.set_edge(i, j, true);
        }
    }
    accumulate_seed(&k5, 3, 3, 5, &mut state, cid);
    assert!(state.pool.is_empty());
    assert_eq!(state.best_4c, u64::MAX);
    // C5 is valid with no 4-cliques: pool resets to it
    accumulate_seed(&c5([0, 1, 2, 3, 4]), 3, 3, 5, &mut state, cid);
    assert_eq!(state.pool.len(), 1);
    assert_eq!(state.best_4c, 0);
    assert_eq!(state.known_cids.len(), 1);
    // the same CID again is not added
    accumulate_seed(&c5([0, 2, 4, 1, 3]), 3, 3, 5, &mut state, cid);
    assert_eq!(state.pool.len(), 1);
    // another CID joins
    accumulate_seed(&c5([0, 2, 4, 1, 3]), 3, 3, 5, &mut state, GraphCid::from_bytes([8u8; 32]));
    assert_eq!(state.pool.len(), 2);
    build_template(&mut state, 5);
    assert_eq!(state.free_edges.len(), 10);
    assert_eq!(state.total, 1024);
    assert_eq!(state.cursor, 0);
}

#[test]
fn sa_objective_prefers_valid_at_same_quality() {
    let valid_obj = objective(0, 65, 65, 10);
    let invalid_obj = objective(1, 65, 65, 10);
    assert!(valid_obj < invalid_obj, "valid graph should have lower objective at same quality");
}

#[test]
fn sa_objective_allows_invalid_traversal() {
    let valid_high_4c = objective(0, 70, 70, 10);
    let invalid_low_4c = objective(1, 60, 60, 10);
    assert!(invalid_low_4c < valid_high_4c, "SA should be able to favor low-4c invalid graphs for traversal");
}

#[test]
fn sa_objective_prefers_lower_4c() {
    let low_4c = objective(0, 65, 65, 10);
    let high_4c = objective(0, 67, 67, 10);
    assert!(low_4c < high_4c, "lower 4c should have lower objective");
}

#[test]
fn sa_objective_exact_value() {
    assert_eq!(objective(2, 3, 7, 1000), 2 * 1000 + 7 * 100 + 3);
    assert_eq!(objective(0, 0, 0, -5), 0);
}

fn make_config(k: u32, ell: u32, pool_size: usize) -> TemplateConfig {
    TemplateConfig { k, ell, pool_size, polish_max_steps: 50, polish_tabu_tenure: 15 }
}

fn round(n: u32, seed: u64, graph: Option<AdjacencyMatrix>, state: TemplateState, cfg: &TemplateConfig) -> (SearchResult, TemplateState) {
    let init = graph.map(|g| {
        let cid = compute_cid(&g);
        (g, cid)
    });
    TemplateSearch.search(n, 100_000, seed, init, state, cfg)
}

fn is_valid(g: &AdjacencyMatrix, k: u32, ell: u32) -> bool {
    let n = g.n();
    let adj = NeighborSet::from_adj(g);
    let comp = NeighborSet::from_adj(&g.complement());
    count_cliques(&adj, k, n) + count_cliques(&comp, ell, n) == 0
}

#[test]
fn template_r33_n5() {
    let cfg = make_config(3, 3, 1);
    let (result, _state) = round(5, 42, Some(paley_graph(5)), new_state(Vec::new()), &cfg);
    assert!(result.valid);
    assert!(result.best_graph.is_some());
}

#[test]
fn template_r44_n17() {
    let cfg = make_config(4, 4, 1);
    let (result, _state) = round(17, 42, Some(paley_graph(17)), new_state(Vec::new()), &cfg);
    assert!(result.valid);
    assert!(result.best_graph.is_some());
}

#[test]
fn template_carry_state_persists() {
    let cfg = make_config(4, 4, 1);
    let paley = paley_graph(17);
    let (_result1, state) = round(17, 42, Some(paley.clone()), new_state(Vec::new()), &cfg);
    assert_eq!(state.pool.len(), 1);
    let (result2, state2) = round(17, 43, Some(paley), state, &cfg);
    assert!(result2.valid);
    assert_eq!(state2.pool.len(), 1, "the same seed is not added twice");
}

#[test]
fn template_enumeration_all_valid() {
    let cfg = make_config(3, 3, 2);
    let g1 = c5([0, 1, 2, 3, 4]);
    let g2 = c5([0, 2, 4, 1, 3]);
    let (_result1, state) = round(5, 42, Some(g1), new_state(Vec::new()), &cfg);
    assert!(!state.built);
    let (result2, state2) = round(5, 43, Some(g2), state, &cfg);
    assert!(state2.built);
    assert_eq!(state2.free_edges.len(), 10);
    assert_eq!(state2.cursor, 1024, "all 2^10 settings were tried");
    assert!(!result2.discoveries.is_empty());
    for d in &result2.discoveries {
        assert!(is_valid(&d.graph, 3, 3), "discovered graph must be valid R(3,3)");
    }
}

#[test]
fn template_exhaustive_round_reports_every_valid_setting() {
    // The 12 labelled 5-cycles are exactly the triangle-free graphs on 5
    // vertices whose complements are triangle-free; all 2^10 settings of
    // the 10 free pairs are tried, so each of them is reported.
    let mut cfg = make_config(3, 3, 2);
    cfg.polish_max_steps = 0;
    let (_r, state) = round(5, 1, Some(c5([0, 1, 2, 3, 4])), new_state(Vec::new()), &cfg);
    let (result, _state) = round(5, 2, Some(c5([0, 2, 4, 1, 3])), state, &cfg);
    assert_eq!(result.discoveries.len(), 12);
    for d in &result.discoveries {
        assert!(is_valid(&d.graph, 3, 3));
    }
}

#[test]
fn template_waits_for_the_pool() {
    let cfg = make_config(3, 3, 3);
    let (result, state) = round(5, 42, Some(c5([0, 1, 2, 3, 4])), new_state(Vec::new()), &cfg);
    assert!(result.valid);
    assert!(!state.built);
    assert!(result.discoveries.is_empty());
    assert_eq!(result.iterations_used, 100_000);
}

#[test]
fn template_resumes_at_the_cursor() {
    let mut cfg = make_config(3, 3, 2);
    cfg.polish_max_steps = 0;
    let (_r, state) = round(5, 1, Some(c5([0, 1, 2, 3, 4])), new_state(Vec::new()), &cfg);
    let (_r, mut state) = round(5, 2, Some(c5([0, 2, 4, 1, 3])), state, &cfg);
    state.cursor = 1000;
    let (result, state) = TemplateSearch.search(5, 10, 3, None, state, &cfg);
    assert_eq!(state.cursor, 1010);
    assert_eq!(result.iterations_used, 10);
    let (_result, state) = TemplateSearch.search(5, 100, 4, None, state, &cfg);
    assert_eq!(state.cursor, 1024, "the cursor stops at the number of settings");
}
