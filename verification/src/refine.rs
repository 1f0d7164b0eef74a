//! Refinement: a deep iterated polish of a valid seed graph (a graph
//! already known to be good), reporting every graph its walks visit.

use vstd::prelude::*;

use crate::adjacency::{AdjacencyMatrix, size_fits};
use crate::paley::{is_paley_prime, paley_candidate, paley_edges, paley_graph};
use crate::polish::{all_valid, count_violations, ils_walk, score_less, valid_score, violation_count, violation_neutral};
use crate::random::seeded_rng;
use crate::search::{RawDiscovery, RefineSearch, SearchResult};

verus! {

/// The parameters of a refinement round.
pub struct RefineConfig {
    /// Clique size to avoid in the graph.
    pub k: u32,
    /// Clique size to avoid in the complement.
    pub ell: u32,
    /// Steps of each polish walk.
    pub polish_max_steps: u32,
    /// Steps a pair stays tabu while polishing.
    pub polish_tabu_tenure: u32,
    /// Perturb-and-polish rounds after the first walk.
    pub ils_restarts: u32,
    /// Neutral flips of each perturbation.
    pub ils_perturb: u32,
}

impl RefineConfig {
    /// The deep parameters a round uses when none are given.
    pub fn defaults() -> (r: Self)
        ensures
            r.k == 5,
            r.ell == 5,
            r.polish_max_steps == 2000,
            r.polish_tabu_tenure == 50,
            r.ils_restarts == 10,
            r.ils_perturb == 5,
    {
        RefineConfig { k: 5, ell: 5, polish_max_steps: 2000, polish_tabu_tenure: 50, ils_restarts: 10, ils_perturb: 5 }
    }
}

/// `s` is the edge set of the seed: the given graph, or a Paley graph on
/// `n` vertices when none is given.
pub open spec fn seed_edges(init_graph: Option<AdjacencyMatrix>, n: int, s: Set<(int, int)>) -> bool {
    match init_graph {
        Some(g) => s == g@,
        None => exists|p: int| is_paley_prime(n, p) && s == paley_edges(n, p),
    }
}

impl RefineSearch {
    /// Refine the seed (`init_graph`, else the Paley graph on `n`
    /// vertices). An invalid seed is skipped: nothing is found, no
    /// iteration is spent. A valid one is polished by `ils_restarts`
    /// perturb-and-polish rounds after a first walk; every graph the walks
    /// visit is reported, the best graph is the best-scoring one found when
    /// it beats the seed and the seed otherwise, and the round counts as
    /// `max_iters` iterations.
    pub fn search(&self, n: u32, max_iters: u64, seed: u64, init_graph: Option<AdjacencyMatrix>, cfg: &RefineConfig) -> (r:
        SearchResult)
        requires
            1 <= n <= 63,
            init_graph matches Some(g) ==> g.wf() && g.order() == n,
            init_graph is None ==> exists|q: int|
                (if n >= 5 {
                    n as int
                } else {
                    5
                }) <= q <= u32::MAX && #[trigger] paley_candidate(q),
            cfg.polish_max_steps + cfg.polish_tabu_tenure <= u32::MAX,
        ensures
            exists|s: Set<(int, int)>|
                #![trigger seed_edges(init_graph, n as int, s)]
                seed_edges(init_graph, n as int, s) && (r.valid <==> violation_count(
                    s,
                    n as int,
                    cfg.k as nat,
                    cfg.ell as nat,
                ) == 0) && (r.valid ==> r.best_graph->Some_0@ == s || score_less(
                    valid_score(r.best_graph->Some_0@, n as int),
                    valid_score(s, n as int),
                )) && (r.valid && cfg.polish_max_steps > 0 && r.discoveries@.len() == 0 ==> forall|u: int, v: int|
                    0 <= u < v < n ==> !#[trigger] violation_neutral(s, n as int, cfg.k as nat, cfg.ell as nat, u, v)),
            r.valid ==> forall|i: int|
                0 <= i < r.discoveries@.len() ==> !score_less(
                    valid_score(#[trigger] r.discoveries@[i].graph@, n as int),
                    valid_score(r.best_graph->Some_0@, n as int),
                ),
            r.valid <==> r.best_graph is Some,
            r.valid ==> r.iterations_used == max_iters,
            !r.valid ==> r.iterations_used == 0 && r.discoveries@.len() == 0,
            all_valid(r.discoveries@, n as int, cfg.k as nat, cfg.ell as nat),
            r.best_graph matches Some(g) ==> g.wf() && g.order() == n && violation_count(
                g@,
                n as int,
                cfg.k as nat,
                cfg.ell as nat,
            ) == 0,
    {
        let k = cfg.k;
        let ell = cfg.ell;
        let mut rng = seeded_rng(seed);
        assert(size_fits(n as int)) by (nonlinear_arith)
            requires
                1 <= n <= 63,
        ;
        let start = match init_graph {
            Some(g) => g,
            None => paley_graph(n),
        };
        let ghost s = start@;
        assert(seed_edges(init_graph, n as int, s));
        let violations = count_violations(&start, k, ell);
        if violations > 0 {
            return SearchResult { best_graph: None, valid: false, iterations_used: 0, discoveries: Vec::new() };
        }
        let mut discoveries: Vec<RawDiscovery> = Vec::new();
        let polished = ils_walk(
            &start,
            k,
            ell,
            cfg.polish_max_steps,
            cfg.polish_tabu_tenure,
            cfg.ils_restarts,
            cfg.ils_perturb,
            &mut discoveries,
            1,
            &mut rng,
        );
        let best = match polished {
            Some(g) => g,
            None => start,
        };
        SearchResult { best_graph: Some(best), valid: true, iterations_used: max_iters, discoveries }
    }
}

} // verus!
