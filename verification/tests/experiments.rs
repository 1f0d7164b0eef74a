use std::cell::RefCell;

use extremal::experiments::SimulatedAnnealing;
use extremal::paley::paley_graph;
use extremal::polish::count_violations;
use rand::rngs::SmallRng;
use rand::{Rng, SeedableRng};

/// Geometric cooling from `initial_temp` by `cooling_rate` per step: a rise
/// `delta` is taken with probability `exp(-delta / T)`.
fn geometric_cooling(initial_temp: f64, cooling_rate: f64, seed: u64) -> impl Fn(u64, i64) -> bool {
    let rng = RefCell::new(SmallRng::seed_from_u64(seed));
    move |iter: u64, delta: i64| {
        let temperature = initial_temp * cooling_rate.powf(iter as f64);
        let prob = (-delta as f64 / temperature).exp();
        rng.borrow_mut().gen_range(0.0..1.0_f64) < prob
    }
}

#[test]
fn sa_sa_finds_r33_n5() {
    let accept = geometric_cooling(5.0, 0.9999, 42);
    let result = SimulatedAnnealing.search(5, 50_000, 42, Some(paley_graph(5)), 3, 3, &accept);
    assert!(result.valid, "SA should find valid R(3,3)/n=5 graph");
    for d in &result.discoveries {
        assert_eq!(count_violations(&d.graph, 3, 3), 0);
    }
}

#[test]
fn sa_sa_finds_r44_n17() {
    let accept = geometric_cooling(10.0, 0.9999, 42);
    let result = SimulatedAnnealing.search(17, 500_000, 42, Some(paley_graph(17)), 4, 4, &accept);
    assert!(result.valid, "SA should find valid R(4,4)/n=17 graph");
}

#[test]
fn experiment_sa_best_never_worse_than_the_start() {
    let mut k6 = extremal::adjacency::AdjacencyMatrix::new(6);
    for u in 0..6 {
        for v in (u + 1)..6 {
            k6.set_edge(u, v, true);
        }
    }
    let before = count_violations(&k6, 3, 3);
    let never = |_: u64, _: i64| false;
    let result = SimulatedAnnealing.search(6, 500, 9, Some(k6), 3, 3, &never);
    assert_eq!(result.iterations_used, 500);
    if let Some(best) = result.best_graph {
        assert!(count_violations(&best, 3, 3) < before);
    }
}
