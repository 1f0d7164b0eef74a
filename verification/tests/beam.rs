use std::collections::HashSet;

use extremal::beam::{Tree2Config, select_beam};
use extremal::adjacency::AdjacencyMatrix;
use extremal::cid::compute_cid;
use extremal::clique::{NeighborSet, count_cliques};
use extremal::paley::paley_graph;
use extremal::tree2::Tree2Search;

fn config(k: u32, ell: u32) -> Tree2Config {
    Tree2Config { k, ell, ..Tree2Config::defaults() }
}

#[test]
fn tree2_tree2_finds_valid_r33_n5() {
    let cfg = config(3, 3);
    let (result, _) = Tree2Search.search(5, 50_000, 42, Some(paley_graph(5)), HashSet::new(), &cfg, Vec::new(), compute_cid);
    assert!(result.valid, "should find valid R(3,3) on 5 vertices");
}

#[test]
fn tree2_tree2_respects_budget() {
    let max = 500u64;
    let cfg = Tree2Config { beam_width: 10, max_depth: 5, ..config(4, 4) };
    let (result, _) = Tree2Search.search(10, max, 42, Some(paley_graph(10)), HashSet::new(), &cfg, Vec::new(), compute_cid);
    assert!(
        result.iterations_used <= max,
        "used {} but budget was {}",
        result.iterations_used,
        max
    );
}

#[test]
fn tree2_tree2_finds_valid_r44_n17() {
    let cfg = Tree2Config { beam_width: 50, max_depth: 15, ..config(4, 4) };
    let (result, _) = Tree2Search.search(17, 500_000, 42, Some(paley_graph(17)), HashSet::new(), &cfg, Vec::new(), compute_cid);
    assert!(result.valid, "should find valid R(4,4) on 17 vertices");
}

#[test]
fn tree2_tree2_focused_r33_n5() {
    let cfg = Tree2Config { focused: true, ..config(3, 3) };
    let (result, _) = Tree2Search.search(5, 50_000, 42, Some(paley_graph(5)), HashSet::new(), &cfg, Vec::new(), compute_cid);
    assert!(result.valid, "focused tree2 should find valid R(3,3) on 5 vertices");
}

#[test]
fn tree2_tree2_focused_r44_n17() {
    let cfg = Tree2Config { beam_width: 50, max_depth: 15, focused: true, ..config(4, 4) };
    let (result, _) = Tree2Search.search(17, 500_000, 42, Some(paley_graph(17)), HashSet::new(), &cfg, Vec::new(), compute_cid);
    assert!(result.valid, "focused tree2 should find valid R(4,4) on 17 vertices");
}

#[test]
fn tree2_discoveries_are_valid_and_seen_carries_over() {
    let cfg = Tree2Config { beam_width: 8, max_depth: 3, polish_max_steps: 10, ..config(3, 3) };
    let (result, seen) = Tree2Search.search(5, 2_000, 1, None, HashSet::new(), &cfg, Vec::new(), compute_cid);
    for d in &result.discoveries {
        let adj = NeighborSet::from_adj(&d.graph);
        let comp = NeighborSet::from_adj(&d.graph.complement());
        assert_eq!(count_cliques(&adj, 3, 5) + count_cliques(&comp, 3, 5), 0);
    }
    assert_eq!(result.valid, !result.discoveries.is_empty());
    assert!(!seen.is_empty());
    let best = result.best_graph.expect("a best graph");
    assert_eq!(best.n(), 5);
}

#[test]
fn select_beam_is_a_stable_sort_then_truncation() {
    // (parent, u, v, violations, kc, ei)
    let c = vec![
        (0usize, 0u32, 1u32, 5u64, 3u64, 2u64),
        (0, 0, 2, 1, 1, 0),
        (1, 1, 2, 1, 0, 1),
        (1, 0, 3, 2, 2, 0),
        (2, 2, 3, 0, 0, 0),
        (2, 1, 3, 2, 1, 1),
    ];
    // With threshold 3, ties in violations go to the balanced one.
    let r = select_beam(&c, 4, 3);
    assert_eq!(r, vec![c[4], c[1], c[2], c[5]]);
    // With threshold 0 only the violation count orders; ties keep input order.
    let r0 = select_beam(&c, 10, 0);
    assert_eq!(r0, vec![c[4], c[1], c[2], c[3], c[5], c[0]]);
}

#[test]
fn tree2_short_budget_scores_exactly_the_budget() {
    let cfg = config(3, 3);
    let (result, _) = Tree2Search.search(5, 3, 42, Some(AdjacencyMatrix::new(5)), HashSet::new(), &cfg, Vec::new(), compute_cid);
    assert_eq!(result.iterations_used, 3);
    assert!(!result.valid);
    assert_eq!(result.best_graph.expect("a best graph").num_edges(), 1);
}

#[test]
fn tree2_skips_known_cids() {
    let cfg = config(3, 3);
    let (first, _) = Tree2Search.search(5, 50_000, 42, Some(paley_graph(5)), HashSet::new(), &cfg, Vec::new(), compute_cid);
    let known: Vec<_> = first.discoveries.iter().map(|d| compute_cid(&d.graph)).collect();
    let (again, _) = Tree2Search.search(5, 50_000, 42, Some(paley_graph(5)), HashSet::new(), &cfg, known.clone(), compute_cid);
    for d in &again.discoveries {
        assert!(!known.contains(&compute_cid(&d.graph)));
    }
    assert!(again.valid);
}
