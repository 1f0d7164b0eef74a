use extremal::cid::compute_cid;
use extremal::clique::{NeighborSet, count_cliques};
use extremal::gradient::GradientConfig;
use extremal::paley::paley_graph;
use extremal::search::GradientDescent;

fn make_config(k: u32, ell: u32) -> GradientConfig {
    GradientConfig {
        descent_steps: 100,
        repair_steps: 5000,
        tabu_tenure: 15,
        perturb_flips: 3,
        polish_max_steps: 50,
        polish_tabu_tenure: 15,
        k,
        ell,
    }
}

#[test]
fn gradient_finds_r33_n5() {
    let cfg = make_config(3, 3);
    let result = GradientDescent.search(5, 100_000, 42, Some(paley_graph(5)), &cfg, Vec::new(), compute_cid);
    assert!(result.valid, "gradient should find valid R(3,3) on 5 vertices");
}

#[test]
fn gradient_finds_r44_n17() {
    let cfg = make_config(4, 4);
    let result = GradientDescent.search(17, 500_000, 42, Some(paley_graph(17)), &cfg, Vec::new(), compute_cid);
    assert!(result.valid, "gradient should find valid R(4,4) on 17 vertices");
}

#[test]
fn gradient_reports_discoveries() {
    let cfg = make_config(3, 3);
    let result = GradientDescent.search(5, 100_000, 42, Some(paley_graph(5)), &cfg, Vec::new(), compute_cid);
    assert!(result.valid);
    assert!(!result.discoveries.is_empty(), "gradient should discover at least 1 valid graph");
    for d in &result.discoveries {
        let adj = NeighborSet::from_adj(&d.graph);
        let comp = NeighborSet::from_adj(&d.graph.complement());
        assert_eq!(
            count_cliques(&adj, 3, 5) + count_cliques(&comp, 3, 5),
            0,
            "discovered graph must be valid R(3,3)"
        );
    }
}

#[test]
fn gradient_multiple_trials() {
    let cfg = GradientConfig {
        descent_steps: 50,
        repair_steps: 2000,
        tabu_tenure: 15,
        perturb_flips: 5,
        polish_max_steps: 0,
        ..GradientConfig::defaults()
    };
    let cfg = GradientConfig { k: 4, ell: 4, ..cfg };
    let result = GradientDescent.search(17, 500_000, 42, Some(paley_graph(17)), &cfg, Vec::new(), compute_cid);
    assert!(result.valid, "gradient should find valid R(4,4) graphs");
    for d in &result.discoveries {
        let adj = NeighborSet::from_adj(&d.graph);
        let comp = NeighborSet::from_adj(&d.graph.complement());
        assert_eq!(
            count_cliques(&adj, 4, 17) + count_cliques(&comp, 4, 17),
            0,
            "all gradient discoveries must be valid R(4,4)"
        );
    }
}

#[test]
fn gradient_spends_exact_budget() {
    let cfg = make_config(3, 3);
    let result = GradientDescent.search(5, 777, 7, None, &cfg, Vec::new(), compute_cid);
    assert_eq!(result.iterations_used, 777);
    let best = result.best_graph.expect("always a best graph");
    assert_eq!(best.n(), 5);
}

#[test]
fn gradient_defaults() {
    let d = GradientConfig::defaults();
    assert_eq!(
        (d.descent_steps, d.repair_steps, d.tabu_tenure, d.perturb_flips),
        (200, 5000, 25, 5)
    );
    assert_eq!((d.polish_max_steps, d.polish_tabu_tenure, d.k, d.ell), (100, 25, 5, 5));
}

#[test]
fn gradient_skips_known_cids() {
    let cfg = make_config(3, 3);
    let first = GradientDescent.search(5, 100_000, 42, Some(paley_graph(5)), &cfg, Vec::new(), compute_cid);
    let known: Vec<_> = first.discoveries.iter().map(|d| compute_cid(&d.graph)).collect();
    let mut cids = known.clone();
    cids.sort();
    cids.dedup();
    assert_eq!(cids.len(), known.len(), "no CID is reported twice");
    let again = GradientDescent.search(5, 100_000, 42, Some(paley_graph(5)), &cfg, known.clone(), compute_cid);
    for d in &again.discoveries {
        assert!(!known.contains(&compute_cid(&d.graph)));
    }
    assert!(again.valid);
}
