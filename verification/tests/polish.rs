use extremal::clique::{NeighborSet, count_cliques};
use extremal::paley::paley_graph;
use extremal::cid::compute_cid;
use extremal::polish::{ScoreState, edge_index, ils_polish, perturb_valid, polish_valid_graph, polish_walk, score_valid_graph};
use extremal::types::GraphCid;
use rand::SeedableRng;
use rand::rngs::SmallRng;
use extremal::tree2::BeamEntry;

#[test]
fn polish_preserves_validity() {
    let graph = paley_graph(17);
    let mut discoveries = Vec::new();

    let mut known: Vec<GraphCid> = Vec::new();
    let result = polish_valid_graph(&graph, 4, 4, 100, 15, &mut known, &compute_cid, &mut discoveries, 0);

    if let Some(polished) = &result {
        let adj = NeighborSet::from_adj(polished);
        let comp = NeighborSet::from_adj(&polished.complement());
        let kc = count_cliques(&adj, 4, 17);
        let ei = count_cliques(&comp, 4, 17);
        assert_eq!(kc + ei, 0, "polished graph must remain valid for R(4,4)");

        let orig_adj = NeighborSet::from_adj(&graph);
        let orig_comp = NeighborSet::from_adj(&graph.complement());
        let orig_score = ScoreState::from_counts(&orig_adj, &orig_comp, 17);
        let pol_score = ScoreState::from_counts(&adj, &comp, 17);
        assert!(
            pol_score.score_tuple() <= orig_score.score_tuple(),
            "polished score should be <= original"
        );
    }

    for discovery in &discoveries {
        let adj = NeighborSet::from_adj(&discovery.graph);
        let comp = NeighborSet::from_adj(&discovery.graph.complement());
        let kc = count_cliques(&adj, 4, 17);
        let ei = count_cliques(&comp, 4, 17);
        assert_eq!(kc + ei, 0, "discovered graph must be valid for R(4,4)");
    }
}

#[test]
fn polish_zero_steps_returns_none() {
    let graph = paley_graph(5);
    let mut discoveries = Vec::new();
    let mut known: Vec<GraphCid> = Vec::new();
    let result = polish_valid_graph(&graph, 3, 3, 0, 10, &mut known, &compute_cid, &mut discoveries, 0);
    assert!(known.is_empty());
    assert!(result.is_none());
    assert!(discoveries.is_empty());
}

#[test]
fn polish_walk_moves_one_edge_at_a_time() {
    let graph = paley_graph(17);
    let mut discoveries = Vec::new();
    polish_walk(&graph, 4, 4, 20, 5, &mut discoveries, 7);
    let mut prev = graph.clone();
    for d in &discoveries {
        assert_eq!(d.iteration, 7);
        let mut differing = 0;
        for u in 0..17u32 {
            for v in (u + 1)..17u32 {
                if prev.edge(u, v) != d.graph.edge(u, v) {
                    differing += 1;
                }
            }
        }
        assert_eq!(differing, 1);
        prev = d.graph.clone();
    }
}

#[test]
fn score_of_paley_five() {
    // C5 and its complement (another C5) have no 4-cliques and no triangles.
    let graph = paley_graph(5);
    assert_eq!(score_valid_graph(&graph, 5), (0, 0, 0, 0));
}

#[test]
fn score_of_complete_graph() {
    let mut k4 = extremal::adjacency::AdjacencyMatrix::new(4);
    for u in 0..4u32 {
        for v in (u + 1)..4u32 {
            k4.set_edge(u, v, true);
        }
    }
    // One 4-clique and four triangles in red; none in blue.
    assert_eq!(score_valid_graph(&k4, 4), (1, 0, 4, 0));
}

#[test]
fn score_state_deltas_clamp_at_zero() {
    let mut s = ScoreState { red_4: 3, blue_4: 5, red_3: 1, blue_3: 0 };
    assert_eq!(s.predicted(-1, 2, -4, 6), (7, 2, 6, 0));
    s.apply_delta(-1, 2, -4, 6);
    assert_eq!((s.red_4, s.blue_4, s.red_3, s.blue_3), (2, 7, 0, 6));
    assert_eq!(s.score_tuple(), (7, 2, 6, 0));
}

#[test]
fn edge_index_is_row_major() {
    assert_eq!(edge_index(0, 1, 5), 0);
    assert_eq!(edge_index(0, 4, 5), 3);
    assert_eq!(edge_index(1, 2, 5), 4);
    assert_eq!(edge_index(2, 1, 5), 4);
    assert_eq!(edge_index(3, 4, 5), 9);
}

#[test]
fn beam_entry_counts_violations() {
    let graph = paley_graph(5);
    let mut e = BeamEntry::from_graph(graph, 3, 3);
    assert_eq!((e.kc, e.ei, e.violations), (0, 0, 0));
    let before = e.graph.edge(0, 1);
    e.flip(0, 1);
    assert_eq!(e.graph.edge(0, 1), !before);
    assert_eq!(e.comp.edge(0, 1), before);
}

#[test]
fn ils_polish_preserves_validity() {
    let graph = paley_graph(17);
    let mut discoveries = Vec::new();
    let mut rng = SmallRng::seed_from_u64(42);

    let mut known: Vec<GraphCid> = Vec::new();
    let result = ils_polish(&graph, 4, 4, 50, 15, 3, 3, &mut known, &compute_cid, &mut discoveries, 0, &mut rng);

    if let Some(polished) = &result {
        let adj = NeighborSet::from_adj(polished);
        let comp = NeighborSet::from_adj(&polished.complement());
        let kc = count_cliques(&adj, 4, 17);
        let ei = count_cliques(&comp, 4, 17);
        assert_eq!(kc + ei, 0, "ILS-polished graph must remain valid for R(4,4)");
    }

    for discovery in &discoveries {
        let adj = NeighborSet::from_adj(&discovery.graph);
        let comp = NeighborSet::from_adj(&discovery.graph.complement());
        let kc = count_cliques(&adj, 4, 17);
        let ei = count_cliques(&comp, 4, 17);
        assert_eq!(kc + ei, 0, "ILS-discovered graph must be valid for R(4,4)");
    }
}

#[test]
fn ils_zero_restarts_matches_single_polish() {
    let graph = paley_graph(17);
    let mut rng = SmallRng::seed_from_u64(99);

    let mut d1 = Vec::new();
    let mut known: Vec<GraphCid> = Vec::new();
    let r1 = polish_valid_graph(&graph, 4, 4, 50, 15, &mut known, &compute_cid, &mut d1, 0);

    let mut d2 = Vec::new();
    let mut known2: Vec<GraphCid> = Vec::new();
    let r2 = ils_polish(&graph, 4, 4, 50, 15, 0, 3, &mut known2, &compute_cid, &mut d2, 0, &mut rng);

    assert_eq!(r1.is_some(), r2.is_some());
}

#[test]
fn ils_improvement_beats_input_score() {
    let graph = paley_graph(17);
    let mut rng = SmallRng::seed_from_u64(5);
    let mut d = Vec::new();
    let mut known: Vec<GraphCid> = Vec::new();
    if let Some(g) = ils_polish(&graph, 4, 4, 30, 10, 2, 2, &mut known, &compute_cid, &mut d, 3, &mut rng) {
        assert!(score_valid_graph(&g, 17) < score_valid_graph(&graph, 17));
    }
    assert!(d.iter().all(|x| x.iteration == 3));
}

#[test]
fn perturb_valid_keeps_paley_valid() {
    let graph = paley_graph(17);
    let mut rng = SmallRng::seed_from_u64(11);
    let p = perturb_valid(&graph, 4, 4, 4, &mut rng);
    assert_eq!(p.n(), 17);
    let adj = NeighborSet::from_adj(&p);
    let comp = NeighborSet::from_adj(&p.complement());
    assert_eq!(count_cliques(&adj, 4, 17) + count_cliques(&comp, 4, 17), 0);
    let mut differing = 0;
    for u in 0..17u32 {
        for v in (u + 1)..17u32 {
            if p.edge(u, v) != graph.edge(u, v) {
                differing += 1;
            }
        }
    }
    assert!(differing <= 4);
}

#[test]
fn polish_skips_known_and_repeated_cids() {
    let graph = paley_graph(5);
    let mut walk = Vec::new();
    polish_walk(&graph, 4, 4, 40, 2, &mut walk, 0);
    assert!(!walk.is_empty());
    let mut known: Vec<GraphCid> = vec![compute_cid(&walk[0].graph)];
    let mut reported = Vec::new();
    polish_valid_graph(&graph, 4, 4, 40, 2, &mut known, &compute_cid, &mut reported, 0);
    // Every reported graph is new, and each CID is added once.
    let cids: Vec<GraphCid> = reported.iter().map(|d| compute_cid(&d.graph)).collect();
    assert!(!cids.contains(&compute_cid(&walk[0].graph)));
    for (i, c) in cids.iter().enumerate() {
        assert!(!cids[..i].contains(c));
    }
    assert_eq!(known.len(), 1 + reported.len());
    assert!(reported.len() < walk.len());
}

#[test]
fn ils_polish_reports_each_cid_once() {
    let graph = paley_graph(17);
    let mut rng = SmallRng::seed_from_u64(42);
    let mut known: Vec<GraphCid> = Vec::new();
    let mut d = Vec::new();
    ils_polish(&graph, 4, 4, 50, 15, 3, 3, &mut known, &compute_cid, &mut d, 0, &mut rng);
    assert_eq!(known.len(), d.len());
    let cids: Vec<GraphCid> = d.iter().map(|x| compute_cid(&x.graph)).collect();
    assert_eq!(cids, known);
    let mut distinct = cids.clone();
    distinct.sort();
    distinct.dedup();
    assert_eq!(distinct.len(), cids.len());
    let mut rng = SmallRng::seed_from_u64(42);
    let mut again = Vec::new();
    ils_polish(&graph, 4, 4, 50, 15, 3, 3, &mut known, &compute_cid, &mut again, 0, &mut rng);
    assert!(again.is_empty(), "the same walks find only known graphs");
}
