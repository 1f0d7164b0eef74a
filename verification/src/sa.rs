//! Simulated annealing: random single flips, improving ones always taken
//! and worsening ones by a temperature rule the caller supplies, on a
//! composite objective (violations weighted, then the larger and the
//! smaller 4-clique count); valid graphs met are reported and polished.

use vstd::prelude::*;

use crate::adjacency::{AdjacencyMatrix, ordered};
use crate::clique::{
    count_cliques, graph_cliques, graph_masks, lemma_cliques_at_most_binom, binom, lemma_cliques_of_small,
    lemma_small_clique_totals, lemma_through_bounds, violation_delta,
};
use crate::construct::violations_are;
use crate::gradient::{all_pairs_list, lemma_entry_flip};
use crate::histogram::complement_edges;
use crate::polish::{Findings, all_valid, count_violations, lemma_kept_valid, violation_count};
use crate::random::{random_graph, random_usize_in, seeded_rng, toggle};
use crate::search::{SearchResult, keep_new_discoveries, kept_new};
use crate::types::GraphCid;
use crate::tree2::BeamEntry;

verus! {

/// Simulated annealing search.
pub struct SimulatedAnnealing;

/// `violations * weight + 100 * max(red_4, blue_4) + min(red_4, blue_4)`,
/// each count taken as an `i64`.
pub open spec fn objective_value(violations: u64, red_4: u64, blue_4: u64, violation_weight: i64) -> int {
    let mx = if red_4 >= blue_4 {
        red_4
    } else {
        blue_4
    };
    let mn = if red_4 >= blue_4 {
        blue_4
    } else {
        red_4
    };
    (violations as i64) * violation_weight + (mx as i64) * 100 + (mn as i64)
}

/// The objective stays within `i64` at every step of its computation.
pub open spec fn objective_fits(violations: u64, red_4: u64, blue_4: u64, violation_weight: i64) -> bool {
    let mx = if red_4 >= blue_4 {
        red_4
    } else {
        blue_4
    };
    let a = (violations as i64) * violation_weight;
    let b = (mx as i64) * 100;
    &&& i64::MIN <= a <= i64::MAX
    &&& i64::MIN <= b <= i64::MAX
    &&& i64::MIN <= a + b <= i64::MAX
    &&& i64::MIN <= objective_value(violations, red_4, blue_4, violation_weight) <= i64::MAX
}

/// Scalar objective, lower is better: violations are penalised by
/// `violation_weight` each; among equal violations the larger 4-clique
/// count dominates, then the smaller.
pub fn objective(violations: u64, red_4: u64, blue_4: u64, violation_weight: i64) -> (r: i64)
    requires
        objective_fits(violations, red_4, blue_4, violation_weight),
    ensures
        r == objective_value(violations, red_4, blue_4, violation_weight),
{
    let mx = if red_4 >= blue_4 {
        red_4
    } else {
        blue_4
    };
    let mn = if red_4 >= blue_4 {
        blue_4
    } else {
        red_4
    };
    violations as i64 * violation_weight + mx as i64 * 100 + mn as i64
}

/// With a positive weight and small counts, fewer violations at the same
/// 4-clique counts give a lower objective.
pub proof fn lemma_objective_prefers_fewer_violations(v1: u64, v2: u64, red_4: u64, blue_4: u64, w: i64)
    requires
        v1 < v2 <= i64::MAX,
        w > 0,
    ensures
        objective_value(v1, red_4, blue_4, w) < objective_value(v2, red_4, blue_4, w),
{
    assert((v1 as i64) * w < (v2 as i64) * w) by (nonlinear_arith)
        requires
            v1 < v2 <= i64::MAX,
            w > 0,
    ;
}

/// The parameters of an annealing run (its temperature schedule lives in
/// the acceptance rule handed to the search).
pub struct SaConfig {
    /// Clique size to avoid in the graph.
    pub k: u32,
    /// Clique size to avoid in the complement.
    pub ell: u32,
    /// Objective penalty per violation.
    pub violation_weight: i64,
    /// Steps of each polish walk (zero: no polishing).
    pub polish_max_steps: u32,
    /// Steps a pair stays tabu while polishing.
    pub polish_tabu_tenure: u32,
}

impl SaConfig {
    /// The parameters a run uses when none are given.
    pub fn defaults() -> (r: Self)
        ensures
            r.k == 5,
            r.ell == 5,
            r.violation_weight == 10,
            r.polish_max_steps == 100,
            r.polish_tabu_tenure == 25,
    {
        SaConfig { k: 5, ell: 5, violation_weight: 10, polish_max_steps: 100, polish_tabu_tenure: 25 }
    }
}

/// Most polish walks per run.
pub const MAX_SA_POLISH: u32 = 5;

/// The most violations a graph on `n` vertices can have: `n` choose `k`
/// plus `n` choose `ell`.
pub open spec fn violation_bound(n: u32, k: u32, ell: u32) -> nat {
    binom(n as nat, k as nat) + binom(n as nat, ell as nat)
}

/// The weight's size (taken as one when it is zero) times the most
/// violations a graph on `n` vertices can have stays within `2^61`, so
/// that every objective, and every difference of two, fits in an `i64`.
pub open spec fn weight_fits(n: u32, k: u32, ell: u32, w: i64) -> bool {
    violation_bound(n, k, ell) * weight_size(w) <= 0x2000_0000_0000_0000
}

/// The size of a weight, at least one.
pub open spec fn weight_size(w: i64) -> int {
    if w >= 1 {
        w as int
    } else if w <= -1 {
        -(w as int)
    } else {
        1
    }
}

/// A fitting weight bounds the violation count by `2^61`.
proof fn lemma_weight_bounds(n: u32, k: u32, ell: u32, w: i64)
    requires
        weight_fits(n, k, ell, w),
    ensures
        violation_bound(n, k, ell) <= 0x2000_0000_0000_0000,
{
    let p = violation_bound(n, k, ell);
    let m = weight_size(w);
    assert(p <= 0x2000_0000_0000_0000) by (nonlinear_arith)
        requires
            p * m <= 0x2000_0000_0000_0000,
            m >= 1,
            p >= 0,
    ;
}

/// The objective of a graph.
pub open spec fn graph_objective(edges: Set<(int, int)>, n: int, k: nat, ell: nat, w: i64) -> int {
    objective_value(
        violation_count(edges, n, k, ell) as u64,
        graph_cliques(edges, n, 4) as u64,
        graph_cliques(complement_edges(edges, n), n, 4) as u64,
        w,
    )
}

/// Counts within the bounds of a graph on `n` vertices give an objective
/// that fits, within `2^61` (plus the 4-clique part) in size.
proof fn lemma_objective_in_range(v: u64, r4: u64, b4: u64, w: i64, n: u32, k: u32, ell: u32)
    requires
        v <= violation_bound(n, k, ell),
        r4 <= 15752961,
        b4 <= 15752961,
        weight_fits(n, k, ell, w),
    ensures
        objective_fits(v, r4, b4, w),
        -0x2000_0000_0000_0000 <= objective_value(v, r4, b4, w) <= 0x2000_0000_0000_0000 + 1_600_000_000,
{
    let p = violation_bound(n, k, ell);
    let m = weight_size(w);
    lemma_weight_bounds(n, k, ell, w);
    assert(-0x2000_0000_0000_0000 <= (v as int) * (w as int) <= 0x2000_0000_0000_0000) by (nonlinear_arith)
        requires
            0 <= v <= p,
            p * m <= 0x2000_0000_0000_0000,
            m >= 1,
            -m <= w <= m,
    ;
    assert((v as i64) as int == v as int);
    assert((r4 as i64) as int == r4 as int);
    assert((b4 as i64) as int == b4 as int);
}

/// Both counts of a graph on `n` vertices are within the objective's
/// bounds.
proof fn lemma_counts_in_range(g: Set<(int, int)>, n: int, k: u32, ell: u32)
    requires
        2 <= n <= 63,
    ensures
        violation_count(g, n, k as nat, ell as nat) <= violation_bound(n as u32, k, ell),
        graph_cliques(g, n, 4) <= 15752961,
        graph_cliques(complement_edges(g, n), n, 4) <= 15752961,
{
    lemma_cliques_at_most_binom(graph_masks(g, n), k as nat, n);
    lemma_cliques_at_most_binom(graph_masks(complement_edges(g, n), n), ell as nat, n);
    lemma_small_clique_totals(graph_masks(g, n), n);
    lemma_small_clique_totals(graph_masks(complement_edges(g, n), n), n);
}

/// One annealing step at step number `i`, from `g` to `h`: some pair is
/// tried, and its flip is taken when it does not raise the objective or
/// `accept` says yes, else the graph stays.
pub open spec fn sa_step<F: Fn(u64, i64) -> bool>(
    accept: F,
    n: int,
    k: nat,
    ell: nat,
    w: i64,
    i: int,
    g: Set<(int, int)>,
    h: Set<(int, int)>,
) -> bool {
    exists|u: int, v: int|
        0 <= u < v < n && {
            let f = #[trigger] toggle(g, ordered(u, v));
            let d = graph_objective(f, n, k, ell, w) - graph_objective(g, n, k, ell, w);
            ||| h == f && (d <= 0 || accept.ensures((i as u64, d as i64), true))
            ||| h == g && d > 0 && accept.ensures((i as u64, d as i64), false)
        }
}

/// What every annealing round satisfies: `walk` is the sequence of graphs
/// it stood on, one step per iteration, from the start (`init`, when
/// given); when nothing valid was found, no graph of the walk is valid and
/// the best graph is one of the walk with the lowest objective.
pub open spec fn sa_outcome<F: Fn(u64, i64) -> bool>(
    accept: F,
    n: int,
    k: nat,
    ell: nat,
    w: i64,
    init: Option<AdjacencyMatrix>,
    r: SearchResult,
    walk: Seq<Set<(int, int)>>,
) -> bool {
    &&& walk.len() == r.iterations_used + 1
    &&& init matches Some(g) ==> walk[0] == g@
    &&& forall|i: int| 0 <= i < walk.len() - 1 ==> #[trigger] sa_step(accept, n, k, ell, w, i + 1, walk[i], walk[i + 1])
    &&& !r.valid ==> {
        &&& forall|i: int| 0 <= i < walk.len() ==> violation_count(#[trigger] walk[i], n, k, ell) > 0
        &&& exists|j: int| 0 <= j < walk.len() && #[trigger] walk[j] == r.best_graph->Some_0@
        &&& forall|i: int|
            0 <= i < walk.len() ==> graph_objective(r.best_graph->Some_0@, n, k, ell, w) <= graph_objective(
                #[trigger] walk[i],
                n,
                k,
                ell,
                w,
            )
    }
}

impl SimulatedAnnealing {
    /// Anneal from `init_graph` (a random graph when there is none) for
    /// `max_iters` steps: each flips a random pair when that does not raise
    /// the objective, and otherwise when `accept(step, rise)` says so (the
    /// temperature rule). A valid start and every accepted flip that leaves
    /// the graph valid are reported; the first `MAX_SA_POLISH` are
    /// polished. The best graph is the reported one with the lowest
    /// 4-clique key, else the graph with the lowest objective met. Before
    /// each step `cancelled` is asked; once it says yes the round stops,
    /// and the steps taken are the iterations used. Of the graphs found
    /// (`found`), only those whose CID (`cid_of`, meant to name the
    /// isomorphism class) is not among `known_cids` nor that of an earlier
    /// one are handed back.
    pub fn search<F: Fn(u64, i64) -> bool, C: Fn() -> bool, G: Fn(&AdjacencyMatrix) -> GraphCid>(
        &self,
        n: u32,
        max_iters: u64,
        seed: u64,
        init_graph: Option<AdjacencyMatrix>,
        cfg: &SaConfig,
        accept: &F,
        cancelled: &C,
        known_cids: Vec<GraphCid>,
        cid_of: G,
    ) -> (r: SearchResult)
        requires
            2 <= n <= 63,
            init_graph matches Some(g) ==> g.wf() && g.order() == n,
            weight_fits(n, cfg.k, cfg.ell, cfg.violation_weight),
            cfg.polish_max_steps + cfg.polish_tabu_tenure <= u32::MAX,
            forall|i: u64, d: i64| #[trigger] accept.requires((i, d)),
            cancelled.requires(()),
            forall|g: &AdjacencyMatrix| g.wf() ==> #[trigger] cid_of.requires((g,)),
        ensures
            r.iterations_used <= max_iters,
            (forall|b: bool| cancelled.ensures((), b) ==> !b) ==> r.iterations_used == max_iters,
            (forall|b: bool| cancelled.ensures((), b) ==> b) ==> r.iterations_used == 0,
            exists|found: SearchResult, walk: Seq<Set<(int, int)>>|
                #[trigger] sa_outcome(*accept, n as int, cfg.k as nat, cfg.ell as nat, cfg.violation_weight, init_graph, found, walk)
                    && found.best_graph == r.best_graph && found.valid == r.valid && found.iterations_used
                    == r.iterations_used && (r.valid <==> found.discoveries@.len() > 0) && exists|
                    known1: Seq<GraphCid>,
                    c: Seq<GraphCid>,
                    pos: Seq<int>,
                | #[trigger] kept_new(cid_of, found.discoveries@, known_cids@, known1, r.discoveries@, c, pos),
            all_valid(r.discoveries@, n as int, cfg.k as nat, cfg.ell as nat),
            r.best_graph matches Some(g) && g.wf() && g.order() == n,
            r.valid ==> violation_count(r.best_graph->Some_0@, n as int, cfg.k as nat, cfg.ell as nat) == 0,
            !r.valid && init_graph is Some ==> graph_objective(
                r.best_graph->Some_0@,
                n as int,
                cfg.k as nat,
                cfg.ell as nat,
                cfg.violation_weight,
            ) <= graph_objective(init_graph->Some_0@, n as int, cfg.k as nat, cfg.ell as nat, cfg.violation_weight),
    {
        let k = cfg.k;
        let ell = cfg.ell;
        let w = cfg.violation_weight;
        let ghost nn = n as int;
        let mut rng = seeded_rng(seed);
        proof {
            lemma_weight_bounds(n, k, ell, w);
        }
        assert(n * (n - 1) <= 63 * 62) by (nonlinear_arith)
            requires
                n <= 63,
        ;
        let all_edges = all_pairs_list(n);
        let start = match init_graph {
            Some(g) => g,
            None => random_graph(n, &mut rng),
        };
        let ghost start_objective = graph_objective(start@, nn, k as nat, ell as nat, w);
        let mut e = BeamEntry::from_graph(start, k, ell);
        let mut violations = e.violations;
        proof {
            lemma_counts_in_range(e.graph@, nn, k, ell);
            lemma_cliques_of_small(e.adj_nbrs.masks@, 4, nn);
            lemma_cliques_of_small(e.comp_nbrs.masks@, 4, nn);
        }
        let mut red_4 = count_cliques(&e.adj_nbrs, 4, n);
        let mut blue_4 = count_cliques(&e.comp_nbrs, 4, n);
        proof {
            lemma_objective_in_range(violations, red_4, blue_4, w, n, k, ell);
        }
        let mut current = objective(violations, red_4, blue_4, w);
        let mut best_obj = current;
        let mut best_graph = e.graph.copy_of();
        let mut findings = Findings::new();
        if violations == 0 {
            findings.report_valid(&e.graph, k, ell, cfg.polish_max_steps, cfg.polish_tabu_tenure, MAX_SA_POLISH, 0);
        }
        let mut iter: u64 = 0;
        let mut stopped = false;
        let ghost mut walk: Seq<Set<(int, int)>> = seq![e.graph@];
        let ghost mut best_at: int = 0;
        while iter < max_iters && !stopped
            invariant
                iter <= max_iters,
                cancelled.requires(()),
                stopped ==> !(forall|b: bool| cancelled.ensures((), b) ==> !b),
                (forall|b: bool| cancelled.ensures((), b) ==> b) ==> iter == 0,
                walk.len() == iter + 1,
                walk[0] == start@,
                walk[iter as int] == e.graph@,
                forall|i: int| 0 <= i < walk.len() - 1 ==> #[trigger] sa_step(*accept, nn, k as nat, ell as nat, w, i + 1, walk[i], walk[i + 1]),
                findings.best is None ==> forall|i: int| 0 <= i < walk.len() ==> violation_count(#[trigger] walk[i], nn, k as nat, ell as nat) > 0,
                0 <= best_at < walk.len(),
                walk[best_at] == best_graph@,
                forall|i: int| 0 <= i < walk.len() ==> best_obj <= graph_objective(#[trigger] walk[i], nn, k as nat, ell as nat, w),
                2 <= n <= 63,
                nn == n,
                k == cfg.k,
                ell == cfg.ell,
                w == cfg.violation_weight,
                weight_fits(n, k, ell, w),
                violation_bound(n, k, ell) <= 0x2000_0000_0000_0000,
                cfg.polish_max_steps + cfg.polish_tabu_tenure <= u32::MAX,
                forall|i: u64, d: i64| #[trigger] accept.requires((i, d)),
                e.wf(),
                e.graph.order() == n,
                all_edges@.len() > 0,
                forall|i: int| 0 <= i < all_edges@.len() ==> (#[trigger] all_edges@[i]).0 < all_edges@[i].1 < n,
                violations_are(e, violations, k as nat, ell as nat),
                red_4 == graph_cliques(e.graph@, nn, 4),
                blue_4 == graph_cliques(complement_edges(e.graph@, nn), nn, 4),
                current == graph_objective(e.graph@, nn, k as nat, ell as nat, w),
                best_graph.wf(),
                best_graph.order() == n,
                best_obj == graph_objective(best_graph@, nn, k as nat, ell as nat, w),
                best_obj <= start_objective,
                findings.inv(nn, k as nat, ell as nat),
                findings.best is Some <==> findings.discoveries@.len() > 0,
            decreases 2 * (max_iters - iter) + if stopped {
                0int
            } else {
                1int
            },
        {
            if cancelled() {
                stopped = true;
                continue;
            }
            let ghost g_before = e.graph@;
            iter = iter + 1;
            proof {
                lemma_counts_in_range(e.graph@, nn, k, ell);
            }
            if iter % 500 == 0 {
                violations = count_violations(&e.graph, k, ell);
                proof {
                    lemma_cliques_of_small(e.adj_nbrs.masks@, 4, nn);
                    lemma_cliques_of_small(e.comp_nbrs.masks@, 4, nn);
                }
                red_4 = count_cliques(&e.adj_nbrs, 4, n);
                blue_4 = count_cliques(&e.comp_nbrs, 4, n);
                proof {
                    lemma_objective_in_range(violations, red_4, blue_4, w, n, k, ell);
                }
                current = objective(violations, red_4, blue_4, w);
            }
            let at = random_usize_in(&mut rng, 0, all_edges.len());
            let (u, v) = all_edges[at];
            let ghost flipped = toggle(e.graph@, ordered(u as int, v as int));
            proof {
                lemma_through_bounds(e.adj_nbrs.masks@, k as nat, u as int, v as int, true);
                lemma_through_bounds(e.comp_nbrs.masks@, ell as nat, u as int, v as int, true);
                lemma_through_bounds(e.comp_nbrs.masks@, ell as nat, u as int, v as int, false);
                lemma_through_bounds(e.adj_nbrs.masks@, 4, u as int, v as int, true);
                lemma_through_bounds(e.comp_nbrs.masks@, 4, u as int, v as int, true);
                lemma_through_bounds(e.comp_nbrs.masks@, 4, u as int, v as int, false);
                lemma_entry_flip(e, k as nat, ell as nat, u as int, v as int);
                lemma_entry_flip(e, 4, 4, u as int, v as int);
                lemma_counts_in_range(flipped, nn, k, ell);
            }
            let (dk, de) = violation_delta(&e.adj_nbrs, &e.comp_nbrs, k, ell, u, v);
            let (dr4, db4) = violation_delta(&e.adj_nbrs, &e.comp_nbrs, 4, 4, u, v);
            let net = dk + de;
            let new_violations: u64 = if net < 0 {
                violations - ((0 - net) as u64)
            } else {
                violations + (net as u64)
            };
            let new_red_4: u64 = if dr4 < 0 {
                red_4 - ((0 - dr4) as u64)
            } else {
                red_4 + (dr4 as u64)
            };
            let new_blue_4: u64 = if db4 < 0 {
                blue_4 - ((0 - db4) as u64)
            } else {
                blue_4 + (db4 as u64)
            };
            proof {
                lemma_objective_in_range(new_violations, new_red_4, new_blue_4, w, n, k, ell);
                lemma_objective_in_range(violations, red_4, blue_4, w, n, k, ell);
            }
            let new_obj = objective(new_violations, new_red_4, new_blue_4, w);
            let delta = new_obj - current;
            let take = if delta <= 0 {
                true
            } else {
                accept(iter, delta)
            };
            proof {
                assert(delta == graph_objective(flipped, nn, k as nat, ell as nat, w) - graph_objective(
                    g_before,
                    nn,
                    k as nat,
                    ell as nat,
                    w,
                ));
            }
            if take {
                e.flip(u, v);
                violations = new_violations;
                red_4 = new_red_4;
                blue_4 = new_blue_4;
                current = new_obj;
                if current < best_obj {
                    best_obj = current;
                    best_graph = e.graph.copy_of();
                    proof {
                        best_at = iter as int;
                    }
                }
                if violations == 0 {
                    let actual = count_violations(&e.graph, k, ell);
                    if actual == 0 {
                        findings.report_valid(
                            &e.graph,
                            k,
                            ell,
                            cfg.polish_max_steps,
                            cfg.polish_tabu_tenure,
                            MAX_SA_POLISH,
                            iter,
                        );
                    } else {
                        violations = actual;
                    }
                }
            }
            proof {
                let wold = walk;
                walk = walk.push(e.graph@);
                assert(toggle(g_before, ordered(u as int, v as int)) == flipped);
                assert(sa_step(*accept, nn, k as nat, ell as nat, w, iter as int, g_before, e.graph@));
                assert forall|i: int| 0 <= i < walk.len() - 1 implies #[trigger] sa_step(
                    *accept,
                    nn,
                    k as nat,
                    ell as nat,
                    w,
                    i + 1,
                    walk[i],
                    walk[i + 1],
                ) by {
                    if i < wold.len() - 1 {
                        assert(walk[i] == wold[i] && walk[i + 1] == wold[i + 1]);
                    }
                }
            }
        }
        let Findings { discoveries, best, .. } = findings;
        let valid = best.is_some();
        let best_graph = match best {
            Some(g) => g,
            None => best_graph,
        };
        let found = SearchResult { best_graph: Some(best_graph), valid, iterations_used: iter, discoveries };
        assert(sa_outcome(*accept, nn, k as nat, ell as nat, w, init_graph, found, walk));
        let ghost g0 = found;
        let SearchResult { best_graph, valid, iterations_used, discoveries } = found;
        let mut known = known_cids;
        let kept = keep_new_discoveries(&discoveries, &mut known, &cid_of);
        let ghost kept_view = kept@;
        proof {
            let (c, pos) = choose|c: Seq<GraphCid>, pos: Seq<int>|
                #[trigger] kept_new(cid_of, discoveries@, known_cids@, known@, kept@, c, pos);
            lemma_kept_valid(cid_of, discoveries@, known_cids@, known@, kept@, c, pos, n as int, cfg.k as nat, cfg.ell as nat);
        }
        let r = SearchResult { best_graph, valid, iterations_used, discoveries: kept };
        proof {
            assert(r.discoveries@ == kept_view);
            assert(g0.discoveries@ == discoveries@);
            assert(sa_outcome(*accept, nn, k as nat, ell as nat, w, init_graph, g0, walk));
        }
        r
    }
}

/// Beyond the weighted violations, the objective counts the larger 4-clique
/// count a hundred times and the smaller once: it is the larger of the
/// two ways of weighting the counts, and the same for either colour.
pub proof fn lemma_objective_value(v: u64, r4: u64, b4: u64, w: i64)
    requires
        r4 <= i64::MAX,
        b4 <= i64::MAX,
    ensures
        ({
            let rest = objective_value(v, r4, b4, w) - (v as i64) * w;
            let x = (r4 as i64) as int;
            let y = (b4 as i64) as int;
            &&& rest == 100 * x + y || rest == 100 * y + x
            &&& (x >= y ==> rest == 100 * x + y)
            &&& (y >= x ==> rest == 100 * y + x)
        }),
        objective_value(v, r4, b4, w) == objective_value(v, b4, r4, w),
{
}

} // verus!
