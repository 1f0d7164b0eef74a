//! The standard benchmark problems for comparing search strategies, and
//! the plain simulated annealing offered as a template for new strategies:
//! random flips judged by the violation count alone.

use vstd::prelude::*;

use crate::adjacency::{AdjacencyMatrix, ordered};
use crate::beam::found_graph;
use crate::clique::{lemma_cliques_of_small, lemma_through_bounds, violation_delta};
use crate::construct::violations_are;
use crate::gradient::{all_pairs_list, lemma_entry_flip};
use crate::histogram::complement_edges;
use crate::polish::{all_valid, violation_count};
use crate::random::{random_graph, random_usize_in, seeded_rng, toggle};
use crate::search::{RawDiscovery, SearchResult};
use crate::tree2::BeamEntry;

verus! {

/// A benchmark problem: find a graph on `n` vertices with no `k`-clique
/// and no independent set of size `ell`.
#[derive(Clone, Debug)]
pub struct Problem {
    pub name: &'static str,
    pub n: u32,
    pub k: u32,
    pub ell: u32,
}

/// The experimental simulated-annealing strategy.
pub struct SimulatedAnnealing;

/// The standard problem set: `R(3,3)` on 5 vertices, `R(4,4)` on 17, and
/// `R(5,5)` on 25 and on 43.
pub fn standard_problems() -> (r: Vec<Problem>)
    ensures
        r@.len() == 4,
        r@[0].name@ == "R(3,3)/n=5"@ && r@[0].n == 5 && r@[0].k == 3 && r@[0].ell == 3,
        r@[1].name@ == "R(4,4)/n=17"@ && r@[1].n == 17 && r@[1].k == 4 && r@[1].ell == 4,
        r@[2].name@ == "R(5,5)/n=25"@ && r@[2].n == 25 && r@[2].k == 5 && r@[2].ell == 5,
        r@[3].name@ == "R(5,5)/n=43"@ && r@[3].n == 43 && r@[3].k == 5 && r@[3].ell == 5,
{
    let mut v: Vec<Problem> = Vec::new();
    v.push(Problem { name: "R(3,3)/n=5", n: 5, k: 3, ell: 3 });
    v.push(Problem { name: "R(4,4)/n=17", n: 17, k: 4, ell: 4 });
    v.push(Problem { name: "R(5,5)/n=25", n: 25, k: 5, ell: 5 });
    v.push(Problem { name: "R(5,5)/n=43", n: 43, k: 5, ell: 5 });
    v
}

/// One step, number `i`, of the plain annealing from `g` to `h`: some
/// pair is drawn, and its flip is taken when it does not raise the
/// violation count or `accept` says yes, else the graph stays.
pub open spec fn plain_step<F: Fn(u64, i64) -> bool>(accept: F, n: int, k: nat, ell: nat, i: int, g: Set<(int, int)>, h: Set<(int, int)>) -> bool {
    exists|u: int, v: int|
        0 <= u < v < n && {
            let f = #[trigger] toggle(g, ordered(u, v));
            let d = violation_count(f, n, k, ell) - violation_count(g, n, k, ell);
            ||| h == f && (d <= 0 || accept.ensures((i as u64, d as i64), true))
            ||| h == g && d > 0 && accept.ensures((i as u64, d as i64), false)
        }
}

/// What every plain annealing round satisfies: `walk` is the sequence of
/// graphs it stood on, one step per iteration, from the start (`init`,
/// when given); every valid graph of the walk is reported; the best graph
/// is one of the walk with the fewest violations, and there is none only
/// when no graph of the walk has fewer than the invalid start.
pub open spec fn plain_outcome<F: Fn(u64, i64) -> bool>(
    accept: F,
    n: int,
    k: nat,
    ell: nat,
    init: Option<AdjacencyMatrix>,
    r: SearchResult,
    walk: Seq<Set<(int, int)>>,
) -> bool {
    &&& walk.len() == r.iterations_used + 1
    &&& init matches Some(g) ==> walk[0] == g@
    &&& forall|i: int| 0 <= i < walk.len() - 1 ==> #[trigger] plain_step(accept, n, k, ell, i, walk[i], walk[i + 1])
    &&& forall|i: int| 0 <= i < walk.len() && violation_count(#[trigger] walk[i], n, k, ell) == 0 ==> found_graph(r.discoveries@, walk[i])
    &&& r.best_graph matches Some(g) ==> (exists|j: int| 0 <= j < walk.len() && #[trigger] walk[j] == g@) && forall|i: int|
        0 <= i < walk.len() ==> violation_count(g@, n, k, ell) <= violation_count(#[trigger] walk[i], n, k, ell)
    &&& r.best_graph is None ==> violation_count(walk[0], n, k, ell) > 0 && forall|i: int|
        0 <= i < walk.len() ==> violation_count(walk[0], n, k, ell) <= violation_count(#[trigger] walk[i], n, k, ell)
}

impl SimulatedAnnealing {
    /// Anneal from `init_graph` (a random graph when there is none) for
    /// `max_iters` steps on the violation count: each step draws a random
    /// pair and flips it when that does not raise the count, and otherwise
    /// when `accept(step, rise)` says so (the cooling rule). A valid start
    /// and every flip that leaves the graph valid are reported. The best
    /// graph is the one with the fewest violations met, when that is fewer
    /// than the start had or the start is valid; none otherwise.
    pub fn search<F: Fn(u64, i64) -> bool>(
        &self,
        n: u32,
        max_iters: u64,
        seed: u64,
        init_graph: Option<AdjacencyMatrix>,
        k: u32,
        ell: u32,
        accept: &F,
    ) -> (r: SearchResult)
        requires
            2 <= n <= 63,
            init_graph matches Some(g) ==> g.wf() && g.order() == n,
            forall|i: u64, d: i64| #[trigger] accept.requires((i, d)),
        ensures
            r.iterations_used == max_iters,
            all_valid(r.discoveries@, n as int, k as nat, ell as nat),
            r.valid <==> r.discoveries@.len() > 0,
            r.best_graph matches Some(g) ==> g.wf() && g.order() == n,
            r.valid ==> r.best_graph is Some && violation_count(r.best_graph->Some_0@, n as int, k as nat, ell as nat)
                == 0,
            r.best_graph is Some && init_graph is Some ==> violation_count(
                r.best_graph->Some_0@,
                n as int,
                k as nat,
                ell as nat,
            ) <= violation_count(init_graph->Some_0@, n as int, k as nat, ell as nat),
            exists|walk: Seq<Set<(int, int)>>| #[trigger] plain_outcome(*accept, n as int, k as nat, ell as nat, init_graph, r, walk),
    {
        let ghost nn = n as int;
        let mut rng = seeded_rng(seed);
        assert(n * (n - 1) <= 63 * 62) by (nonlinear_arith)
            requires
                n <= 63,
        ;
        let start = match init_graph {
            Some(g) => g,
            None => random_graph(n, &mut rng),
        };
        let ghost start_count = violation_count(start@, nn, k as nat, ell as nat);
        let mut e = BeamEntry::from_graph(start, k, ell);
        let mut violations = e.violations;
        let mut best_graph: Option<AdjacencyMatrix> = None;
        let mut best_violations = violations;
        let mut discoveries: Vec<RawDiscovery> = Vec::new();
        let edges = all_pairs_list(n);
        if violations == 0 {
            discoveries.push(RawDiscovery { graph: e.graph.copy_of(), iteration: 0 });
            best_graph = Some(e.graph.copy_of());
        }
        let mut iter: u64 = 0;
        let ghost mut walk: Seq<Set<(int, int)>> = seq![e.graph@];
        let ghost mut best_at: int = 0;
        proof {
            if violations == 0 {
                assert(discoveries@[0].graph@ == walk[0]);
            }
        }
        while iter < max_iters
            invariant
                walk.len() == iter + 1,
                walk[0] == start@,
                walk[iter as int] == e.graph@,
                forall|i: int| 0 <= i < walk.len() - 1 ==> #[trigger] plain_step(*accept, nn, k as nat, ell as nat, i, walk[i], walk[i + 1]),
                forall|i: int| 0 <= i < walk.len() && violation_count(#[trigger] walk[i], nn, k as nat, ell as nat) == 0 ==> found_graph(discoveries@, walk[i]),
                forall|i: int| 0 <= i < walk.len() ==> best_violations <= violation_count(#[trigger] walk[i], nn, k as nat, ell as nat),
                best_graph matches Some(g) ==> 0 <= best_at < walk.len() && walk[best_at] == g@,
                best_graph is None ==> best_violations == start_count && start_count > 0,
                start_count == violation_count(start@, nn, k as nat, ell as nat),
                iter <= max_iters,
                2 <= n <= 63,
                nn == n,
                forall|i: u64, d: i64| #[trigger] accept.requires((i, d)),
                e.wf(),
                e.graph.order() == n,
                edges@.len() > 0,
                forall|i: int| 0 <= i < edges@.len() ==> (#[trigger] edges@[i]).0 < edges@[i].1 < n,
                violations_are(e, violations, k as nat, ell as nat),
                best_violations <= start_count,
                best_graph matches Some(g) ==> g.wf() && g.order() == n && violation_count(g@, nn, k as nat, ell as nat)
                    == best_violations,
                discoveries@.len() > 0 ==> best_graph is Some && best_violations == 0,
                best_violations == 0 ==> best_graph is Some,
                all_valid(discoveries@, nn, k as nat, ell as nat),
            decreases max_iters - iter,
        {
            let at = random_usize_in(&mut rng, 0, edges.len());
            let (u, v) = edges[at];
            proof {
                lemma_through_bounds(e.adj_nbrs.masks@, k as nat, u as int, v as int, true);
                lemma_through_bounds(e.comp_nbrs.masks@, ell as nat, u as int, v as int, true);
                lemma_through_bounds(e.comp_nbrs.masks@, ell as nat, u as int, v as int, false);
                lemma_entry_flip(e, k as nat, ell as nat, u as int, v as int);
                lemma_cliques_of_small(
                    crate::clique::graph_masks(toggle(e.graph@, ordered(u as int, v as int)), nn),
                    k as nat,
                    nn,
                );
                lemma_cliques_of_small(
                    crate::clique::graph_masks(complement_edges(toggle(e.graph@, ordered(u as int, v as int)), nn), nn),
                    ell as nat,
                    nn,
                );
            }
            let (dk, de) = violation_delta(&e.adj_nbrs, &e.comp_nbrs, k, ell, u, v);
            let delta = dk + de;
            let ghost g_before = e.graph@;
            let ghost d_before = discoveries@;
            let ghost f = toggle(g_before, ordered(u as int, v as int));
            assert(delta == violation_count(f, nn, k as nat, ell as nat) - violation_count(g_before, nn, k as nat, ell as nat));
            let take = if delta <= 0 {
                true
            } else {
                accept(iter, delta)
            };
            if take {
                e.flip(u, v);
                violations = if delta < 0 {
                    violations - ((0 - delta) as u64)
                } else {
                    violations + (delta as u64)
                };
                if violations < best_violations {
                    best_violations = violations;
                    best_graph = Some(e.graph.copy_of());
                    proof {
                        best_at = iter + 1;
                    }
                }
                if violations == 0 {
                    let ghost before = discoveries@;
                    discoveries.push(RawDiscovery { graph: e.graph.copy_of(), iteration: iter });
                    proof {
                        assert forall|j: int| 0 <= j < discoveries@.len() implies (#[trigger] discoveries@[j]).graph.wf()
                            && discoveries@[j].graph.order() == nn && violation_count(discoveries@[j].graph@, nn, k as nat, ell as nat) == 0 by {
                            if j < before.len() {
                                assert(discoveries@[j] == before[j]);
                            }
                        }
                    }
                }
            }
            proof {
                let w0 = walk;
                assert(plain_step(*accept, nn, k as nat, ell as nat, iter as int, g_before, e.graph@));
                walk = walk.push(e.graph@);
                assert forall|i: int| 0 <= i < walk.len() - 1 implies #[trigger] plain_step(*accept, nn, k as nat, ell as nat, i, walk[i], walk[i + 1]) by {
                    if i < w0.len() - 1 {
                        assert(walk[i] == w0[i] && walk[i + 1] == w0[i + 1]);
                    }
                }
                assert(discoveries@.take(d_before.len() as int) =~= d_before);
                assert forall|i: int| 0 <= i < walk.len() && violation_count(#[trigger] walk[i], nn, k as nat, ell as nat) == 0 implies found_graph(discoveries@, walk[i]) by {
                    if i < w0.len() {
                        assert(walk[i] == w0[i]);
                        crate::beam::lemma_found_grows(d_before, discoveries@, walk[i]);
                    } else if take {
                        assert(discoveries@[d_before.len() as int].graph@ == walk[i]);
                    } else {
                        assert(walk[i] == w0[w0.len() - 1]);
                        crate::beam::lemma_found_grows(d_before, discoveries@, walk[i]);
                    }
                }
                assert forall|i: int| 0 <= i < walk.len() implies best_violations <= violation_count(#[trigger] walk[i], nn, k as nat, ell as nat) by {
                    if i < w0.len() {
                        assert(walk[i] == w0[i]);
                    }
                }
            }
            iter = iter + 1;
        }
        let valid = discoveries.len() > 0;
        let r = SearchResult { best_graph, valid, iterations_used: max_iters, discoveries };
        assert(plain_outcome(*accept, nn, k as nat, ell as nat, init_graph, r, walk));
        r
    }
}

} // verus!
