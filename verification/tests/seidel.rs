use extremal::cid::compute_cid;
use extremal::adjacency::AdjacencyMatrix;
use extremal::clique::{NeighborSet, count_cliques};
use extremal::paley::paley_graph;
use extremal::polish::count_violations;
use extremal::seidel::{SeidelConfig, SeidelSearch, seidel_switch};

fn config(k: u32, ell: u32) -> SeidelConfig {
    SeidelConfig { k, ell, max_switch_size: 3, random_compositions: 1000, polish_max_steps: 0, polish_tabu_tenure: 25 }
}

fn c5() -> AdjacencyMatrix {
    let mut g = AdjacencyMatrix::new(5);
    g.set_edge(0, 1, true);
    g.set_edge(1, 2, true);
    g.set_edge(2, 3, true);
    g.set_edge(3, 4, true);
    g.set_edge(0, 4, true);
    g
}

#[test]
fn seidel_finds_r33_n5() {
    let result = SeidelSearch.search(5, 1_000_000, 42, Some(c5()), &config(3, 3), Vec::new(), compute_cid);
    assert!(result.valid, "should find valid R(3,3) graph");
    assert!(!result.discoveries.is_empty(), "should discover at least the seed itself");
}

#[test]
fn seidel_finds_r44_n17() {
    let result = SeidelSearch.search(17, 1_000_000, 42, Some(paley_graph(17)), &config(4, 4), Vec::new(), compute_cid);
    assert!(result.valid, "should find valid R(4,4) graph on 17 vertices");
}

#[test]
fn seidel_no_init_graph_returns_early() {
    let result = SeidelSearch.search(5, 1_000_000, 42, None, &config(3, 3), Vec::new(), compute_cid);
    assert!(!result.valid);
    assert_eq!(result.iterations_used, 0);
}

#[test]
fn seidel_reports_discoveries() {
    let result = SeidelSearch.search(5, 1_000_000, 42, Some(c5()), &config(3, 3), Vec::new(), compute_cid);
    assert!(!result.discoveries.is_empty(), "should report at least 1 discovery");
    for d in &result.discoveries {
        let adj = NeighborSet::from_adj(&d.graph);
        let comp = NeighborSet::from_adj(&d.graph.complement());
        assert_eq!(count_cliques(&adj, 3, 5) + count_cliques(&comp, 3, 5), 0);
    }
}

#[test]
fn seidel_counts_exhaustive_switchings() {
    // Sets of 1, 2 and 3 of 5 vertices: 5 + 10 + 10 = 25 iterations, no
    // random compositions.
    let cfg = SeidelConfig { random_compositions: 0, ..config(3, 3) };
    let result = SeidelSearch.search(5, 1_000_000, 42, Some(c5()), &cfg, Vec::new(), compute_cid);
    assert_eq!(result.iterations_used, 25);
    // A budget smaller than the enumeration cuts it short.
    let cut = SeidelSearch.search(5, 7, 42, Some(c5()), &config(3, 3), Vec::new(), compute_cid);
    assert_eq!(cut.iterations_used, 7);
}

#[test]
fn seidel_skips_known_cids() {
    let first = SeidelSearch.search(5, 1_000_000, 42, Some(c5()), &config(3, 3), Vec::new(), compute_cid);
    let known: Vec<_> = first.discoveries.iter().map(|d| compute_cid(&d.graph)).collect();
    let mut distinct = known.clone();
    distinct.sort();
    distinct.dedup();
    assert_eq!(distinct.len(), known.len(), "no CID is reported twice");
    let again = SeidelSearch.search(5, 1_000_000, 42, Some(c5()), &config(3, 3), known.clone(), compute_cid);
    assert!(again.valid);
    assert!(again.discoveries.is_empty(), "every graph found was known");
}

#[test]
fn seidel_finds_every_valid_switch() {
    let seed = paley_graph(17);
    let cfg = SeidelConfig { random_compositions: 0, ..config(4, 4) };
    let result = SeidelSearch.search(17, 1_000_000, 42, Some(seed.clone()), &cfg, Vec::new(), compute_cid);
    let mut expected = 0;
    for a in 0..17u32 {
        for b in a..17u32 {
            for c in b..17u32 {
                let mut set = vec![a];
                if b > a {
                    set.push(b);
                }
                if c > b {
                    set.push(c);
                }
                let g = seidel_switch(&seed, &set);
                if count_violations(&g, 4, 4) == 0 {
                    expected += 1;
                    assert!(result.discoveries.iter().any(|d| d.graph == g), "switch by {set:?} is missing");
                }
            }
        }
    }
    println!("{expected} valid switches");
}
