use extremal::adjacency::AdjacencyMatrix;
use extremal::cid::compute_cid;
use std::cell::RefCell;

use extremal::paley::paley_graph;
use extremal::polish::count_violations;
use extremal::sa::{SaConfig, SimulatedAnnealing};
use rand::rngs::SmallRng;
use rand::{Rng, SeedableRng};

fn make_config(k: u32, ell: u32) -> SaConfig {
    let mut cfg = SaConfig::defaults();
    cfg.k = k;
    cfg.ell = ell;
    cfg.violation_weight = 10;
    cfg
}

/// Linear cooling from `initial_temp`: a rise `delta` at step `iter` is
/// taken with probability `exp(-delta / T)` while `T` exceeds 0.001.
fn linear_cooling(initial_temp: f64, max_iters: u64, seed: u64) -> impl Fn(u64, i64) -> bool {
    let rng = RefCell::new(SmallRng::seed_from_u64(seed));
    move |iter: u64, delta: i64| {
        let temperature = initial_temp * (1.0 - iter as f64 / max_iters as f64);
        if temperature > 0.001 {
            let prob = (-delta as f64 / temperature).exp();
            rng.borrow_mut().gen_range(0.0..1.0_f64) < prob
        } else {
            false
        }
    }
}

#[test]
fn sa_finds_r33_n5() {
    let cfg = make_config(3, 3);
    let accept = linear_cooling(10.0, 100_000, 42);
    let result = SimulatedAnnealing.search(5, 100_000, 42, Some(paley_graph(5)), &cfg, &accept, &|| false, Vec::new(), compute_cid);
    assert!(result.valid, "SA should find valid R(3,3) on 5 vertices");
}

#[test]
fn sa_finds_r44_n17() {
    let cfg = make_config(4, 4);
    let accept = linear_cooling(10.0, 500_000, 42);
    let result = SimulatedAnnealing.search(17, 500_000, 42, Some(paley_graph(17)), &cfg, &accept, &|| false, Vec::new(), compute_cid);
    assert!(result.valid, "SA should find valid R(4,4) on 17 vertices");
}

#[test]
fn sa_discovers_multiple_graphs() {
    let cfg = make_config(3, 3);
    let accept = linear_cooling(10.0, 100_000, 42);
    let result = SimulatedAnnealing.search(5, 100_000, 42, Some(paley_graph(5)), &cfg, &accept, &|| false, Vec::new(), compute_cid);
    assert!(result.valid);
    assert!(!result.discoveries.is_empty(), "SA should discover at least 1 valid graph");
    for d in &result.discoveries {
        assert_eq!(count_violations(&d.graph, 3, 3), 0);
    }
}

#[test]
fn sa_without_rises_never_worsens_the_seed() {
    let cfg = make_config(3, 3);
    let mut k5 = extremal::adjacency::AdjacencyMatrix::new(5);
    for u in 0..5 {
        for v in (u + 1)..5 {
            k5.set_edge(u, v, true);
        }
    }
    let before = count_violations(&k5, 3, 3);
    let never = |_: u64, _: i64| false;
    let result = SimulatedAnnealing.search(5, 1_000, 3, Some(k5), &cfg, &never, &|| false, Vec::new(), compute_cid);
    assert_eq!(result.iterations_used, 1_000);
    let best = result.best_graph.expect("a best graph is always given");
    assert!(count_violations(&best, 3, 3) <= before);
}

#[test]
fn sa_cancelled_before_first_step_uses_no_iterations() {
    let cfg = make_config(3, 3);
    let never = |_: u64, _: i64| false;
    let result = SimulatedAnnealing.search(5, 1_000, 3, Some(paley_graph(5)), &cfg, &never, &|| true, Vec::new(), compute_cid);
    assert_eq!(result.iterations_used, 0);
    assert!(result.valid, "the valid seed is still reported");
}

#[test]
fn sa_skips_known_cids() {
    let cfg = make_config(3, 3);
    let accept = linear_cooling(10.0, 100_000, 42);
    let first = SimulatedAnnealing.search(5, 100_000, 42, Some(paley_graph(5)), &cfg, &accept, &|| false, Vec::new(), compute_cid);
    let known: Vec<_> = first.discoveries.iter().map(|d| compute_cid(&d.graph)).collect();
    let accept = linear_cooling(10.0, 100_000, 42);
    let again = SimulatedAnnealing.search(5, 100_000, 42, Some(paley_graph(5)), &cfg, &accept, &|| false, known.clone(), compute_cid);
    assert!(again.valid);
    for d in &again.discoveries {
        assert!(!known.contains(&compute_cid(&d.graph)));
    }
}

#[test]
fn sa_runs_on_sixty_vertices() {
    // The objective's bound counts the cliques a graph can really have, so
    // large graphs at the default weight are accepted.
    let cfg = make_config(4, 4);
    let accept = linear_cooling(10.0, 20, 1);
    let result = SimulatedAnnealing.search(60, 20, 1, Some(AdjacencyMatrix::new(60)), &cfg, &accept, &|| false, Vec::new(), compute_cid);
    assert_eq!(result.iterations_used, 20);
    assert!(!result.valid);
}
