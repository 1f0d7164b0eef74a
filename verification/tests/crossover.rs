use extremal::cid::compute_cid;
use extremal::adjacency::AdjacencyMatrix;
use extremal::crossover::{CrossoverConfig, MAX_PARENT_POOL, make_offspring};
use extremal::paley::paley_graph;
use extremal::polish::count_violations;
use extremal::search::CrossoverSearch;
use rand::SeedableRng;
use rand::distributions::Bernoulli;
use rand::rngs::SmallRng;

fn make_config(n: u32, k: u32, ell: u32) -> CrossoverConfig {
    let mut cfg = CrossoverConfig::defaults();
    cfg.k = k;
    cfg.ell = ell;
    cfg.num_offspring = 5;
    cfg.tabu_tenure = (n * 2) as u64;
    cfg
}

fn half() -> Bernoulli {
    Bernoulli::new(0.5).unwrap()
}

#[test]
fn crossover_finds_r33_n5() {
    let cfg = make_config(5, 3, 3);
    let (result, _pool) = CrossoverSearch.search(5, 50_000, 42, Some(paley_graph(5)), Vec::new(), &half(), &cfg, Vec::new(), compute_cid);
    assert!(result.valid, "crossover should find valid R(3,3) on 5 vertices");
}

#[test]
fn crossover_finds_r44_n17() {
    let mut cfg = make_config(17, 4, 4);
    cfg.tabu_tenure = 34;
    let (result, _pool) = CrossoverSearch.search(17, 500_000, 42, Some(paley_graph(17)), Vec::new(), &half(), &cfg, Vec::new(), compute_cid);
    assert!(result.valid, "crossover should find valid R(4,4) on 17 vertices");
}

#[test]
fn crossover_discovers_via_observer() {
    let cfg = make_config(5, 3, 3);
    let (result, _pool) = CrossoverSearch.search(5, 50_000, 42, Some(paley_graph(5)), Vec::new(), &half(), &cfg, Vec::new(), compute_cid);
    assert!(result.valid);
    assert!(!result.discoveries.is_empty(), "should discover at least 1 valid graph");
}

#[test]
fn crossover_carry_state_builds_pool() {
    let cfg = make_config(5, 3, 3);
    let (_result, pool) = CrossoverSearch.search(5, 50_000, 42, Some(paley_graph(5)), Vec::new(), &half(), &cfg, Vec::new(), compute_cid);
    assert!(!pool.is_empty(), "the pool should hold the valid graphs found");
    assert!(pool.len() <= MAX_PARENT_POOL);
}

#[test]
fn crossover_uses_pool_from_carry_state() {
    let cfg = make_config(5, 3, 3);
    let (r1, pool) = CrossoverSearch.search(5, 50_000, 42, Some(paley_graph(5)), Vec::new(), &half(), &cfg, Vec::new(), compute_cid);
    assert!(r1.valid);
    let (r2, _pool) = CrossoverSearch.search(5, 50_000, 99, Some(paley_graph(5)), pool, &half(), &cfg, Vec::new(), compute_cid);
    assert!(r2.valid);
}

fn same_edges(a: &AdjacencyMatrix, b: &AdjacencyMatrix) -> bool {
    let n = a.n();
    for u in 0..n {
        for v in (u + 1)..n {
            if a.edge(u, v) != b.edge(u, v) {
                return false;
            }
        }
    }
    true
}

#[test]
fn crossover_offspring_follows_the_coin() {
    let a = paley_graph(5);
    let b = a.complement();
    let mut rng = SmallRng::seed_from_u64(7);
    let always_a = make_offspring(&a, &b, &Bernoulli::new(1.0).unwrap(), &mut rng);
    assert!(same_edges(&always_a, &a));
    let always_b = make_offspring(&a, &b, &Bernoulli::new(0.0).unwrap(), &mut rng);
    assert!(same_edges(&always_b, &b));
    let mixed = make_offspring(&a, &a, &half(), &mut rng);
    assert!(same_edges(&mixed, &a), "parents that agree give their common graph");
}

#[test]
fn crossover_pool_and_discoveries_are_valid() {
    let cfg = make_config(5, 3, 3);
    let (result, pool) = CrossoverSearch.search(5, 50_000, 42, Some(paley_graph(5)), Vec::new(), &half(), &cfg, Vec::new(), compute_cid);
    for d in &result.discoveries {
        assert_eq!(count_violations(&d.graph, 3, 3), 0);
    }
    for g in &pool {
        assert_eq!(g.n(), 5);
        assert_eq!(count_violations(g, 3, 3), 0);
    }
    let best = result.best_graph.expect("a valid round has a best graph");
    assert_eq!(count_violations(&best, 3, 3), 0);
}

#[test]
fn crossover_iterations_split_between_offspring() {
    let cfg = make_config(5, 3, 3);
    let (result, _pool) = CrossoverSearch.search(5, 50_000, 42, Some(paley_graph(5)), Vec::new(), &half(), &cfg, Vec::new(), compute_cid);
    let per = 50_000 / 5;
    assert!((0..=5u64).any(|c| result.iterations_used == c + (5 - c) * per));
}

#[test]
fn crossover_without_offspring_does_nothing() {
    let mut cfg = make_config(5, 3, 3);
    cfg.num_offspring = 0;
    let (result, pool) = CrossoverSearch.search(5, 50_000, 42, Some(paley_graph(5)), Vec::new(), &half(), &cfg, Vec::new(), compute_cid);
    assert!(!result.valid);
    assert!(result.best_graph.is_none());
    assert_eq!(result.iterations_used, 0);
    assert!(result.discoveries.is_empty());
    assert!(pool.is_empty());
}
