//! Greedy construction: colour the pairs one by one in a random order,
//! each the way that adds fewer violations (fewer 4-cliques on a tie, a
//! coin on a second tie), then repair a nearly valid result by tabu
//! search; valid results are reported and polished.

use rand::rngs::SmallRng;
use vstd::prelude::*;

use crate::adjacency::{AdjacencyMatrix, is_vertex_pair, ordered};
use crate::clique::{graph_cliques, lemma_cliques_of_small, lemma_through_bounds, violation_delta};
use crate::beam::copy_pairs;
use crate::gradient::{all_pairs_list, lemma_entry_flip};
use crate::histogram::complement_edges;

use crate::polish::{Findings, all_valid, count_violations, four_key, key_less, lemma_kept_valid, violation_count};
use crate::random::{choose_position, random_coin, seeded_rng, shuffle_items, toggle, toggle_all};
use crate::search::{ConstructSearch, RawDiscovery, SearchResult, keep_new_discoveries, kept_new};
use crate::types::GraphCid;
use crate::tree2::BeamEntry;

verus! {

/// The parameters of a construction round.
pub struct ConstructConfig {
    /// Clique size to avoid in the graph.
    pub k: u32,
    /// Clique size to avoid in the complement.
    pub ell: u32,
    /// Steps of each polish walk (zero: no polishing).
    pub polish_max_steps: u32,
    /// Steps a pair stays tabu while polishing.
    pub polish_tabu_tenure: u32,
    /// Most repair steps per construction (zero: no repair).
    pub repair_max_iters: u64,
    /// Constructions with at most this many violations are repaired.
    pub repair_threshold: u64,
}

impl ConstructConfig {
    /// The parameters a round uses when none are given.
    pub fn defaults() -> (r: Self)
        ensures
            r.k == 5,
            r.ell == 5,
            r.polish_max_steps == 100,
            r.polish_tabu_tenure == 25,
            r.repair_max_iters == 10000,
            r.repair_threshold == 10,
    {
        ConstructConfig {
            k: 5,
            ell: 5,
            polish_max_steps: 100,
            polish_tabu_tenure: 25,
            repair_max_iters: 10000,
            repair_threshold: 10,
        }
    }
}

/// Most polish walks per round.
pub const MAX_CONSTRUCT_POLISH: u32 = 20;

/// The entry's graph has the violation count `v`.
pub open spec fn violations_are(e: BeamEntry, v: u64, k: nat, ell: nat) -> bool {
    v == violation_count(e.graph@, e.graph.order() as int, k, ell)
}

/// Flipping a pair changes the violation count by the sum of its deltas.
proof fn lemma_flip_violations(e: BeamEntry, k: nat, ell: nat, u: int, v: int)
    requires
        e.wf(),
        0 <= u < v < e.graph.order(),
    ensures
        violation_count(toggle(e.graph@, ordered(u, v)), e.graph.order() as int, k, ell) == violation_count(
            e.graph@,
            e.graph.order() as int,
            k,
            ell,
        ) + crate::clique::red_delta(e.adj_nbrs.masks@, k, u, v) + crate::clique::blue_delta(
            e.adj_nbrs.masks@,
            e.comp_nbrs.masks@,
            ell,
            u,
            v,
        ),
{
    lemma_entry_flip(e, k, ell, u, v);
}

/// Tabu repair: at most `max_repair_iters` flips, each of a free pair
/// with the lowest violation delta (ties broken at random), until the
/// graph is valid. Answers whether it is valid at the end.
fn tabu_repair(
    e: &mut BeamEntry,
    all_edges: &Vec<(u32, u32)>,
    k: u32,
    ell: u32,
    max_repair_iters: u64,
    iters_used: &mut u64,
    rng: &mut SmallRng,
) -> (repaired: bool)
    requires
        old(e).wf(),
        forall|i: int| 0 <= i < all_edges@.len() ==> (#[trigger] all_edges@[i]).0 < all_edges@[i].1 < old(e).graph.order(),
        *old(iters_used) + max_repair_iters <= u64::MAX,
    ensures
        final(e).wf(),
        final(e).graph.order() == old(e).graph.order(),
        *old(iters_used) <= *final(iters_used) <= *old(iters_used) + max_repair_iters,
        repaired == (violation_count(final(e).graph@, final(e).graph.order() as int, k as nat, ell as nat) == 0),
        exists|flips: Seq<(int, int)>|
            #![trigger toggle_all(old(e).graph@, flips)]
            flips.len() == *final(iters_used) - *old(iters_used) && (forall|j: int|
                0 <= j < flips.len() ==> is_vertex_pair(old(e).graph.order() as int, #[trigger] flips[j]))
                && final(e).graph@ == toggle_all(old(e).graph@, flips),
        max_repair_iters > 0 && all_edges@.len() > 0 && violation_count(
            old(e).graph@,
            old(e).graph.order() as int,
            k as nat,
            ell as nat,
        ) > 0 ==> *old(iters_used) < *final(iters_used),
{
    let n = e.graph.n();
    let ghost nn = n as int;
    let num_edges = all_edges.len();
    let mut tabu: Vec<u64> = Vec::new();
    let mut i: usize = 0;
    while i < num_edges
        invariant
            i <= num_edges,
            tabu@.len() == i,
            forall|j: int| 0 <= j < i ==> #[trigger] tabu@[j] == 0,
        decreases num_edges - i,
    {
        tabu.push(0);
        i = i + 1;
    }
    let tenure: u64 = if num_edges / 10 >= 5 {
        (num_edges / 10) as u64
    } else {
        5
    };
    let mut step: u64 = 0;
    let mut cur_violations = count_violations(&e.graph, k, ell);
    let ghost start = *iters_used;
    let ghost start_graph = e.graph@;
    let ghost mut flips: Seq<(int, int)> = Seq::empty();
    assert(toggle_all(start_graph, flips) == start_graph);
    while step < max_repair_iters && cur_violations > 0
        invariant
            step <= max_repair_iters,
            n == e.graph.order(),
            nn == n,
            e.wf(),
            num_edges == all_edges@.len(),
            tabu@.len() == num_edges,
            forall|i: int| 0 <= i < all_edges@.len() ==> (#[trigger] all_edges@[i]).0 < all_edges@[i].1 < n,
            violations_are(*e, cur_violations, k as nat, ell as nat),
            *iters_used == start + step,
            start + max_repair_iters <= u64::MAX,
            flips.len() == step,
            forall|j: int| 0 <= j < flips.len() ==> is_vertex_pair(nn, #[trigger] flips[j]),
            e.graph@ == toggle_all(start_graph, flips),
            step == 0 ==> forall|j: int| 0 <= j < tabu@.len() ==> #[trigger] tabu@[j] == 0,
        ensures
            e.wf(),
            n == e.graph.order(),
            violations_are(*e, cur_violations, k as nat, ell as nat),
            *iters_used == start + step,
            flips.len() == step,
            forall|j: int| 0 <= j < flips.len() ==> is_vertex_pair(nn, #[trigger] flips[j]),
            e.graph@ == toggle_all(start_graph, flips),
            step == 0 && max_repair_iters > 0 && num_edges > 0 ==> cur_violations == 0,
        decreases max_repair_iters - step,
    {
        let mut best_delta: i64 = i64::MAX;
        let mut best_edges: Vec<usize> = Vec::new();
        let mut idx: usize = 0;
        while idx < num_edges
            invariant
                idx <= num_edges,
                num_edges == all_edges@.len(),
                tabu@.len() == num_edges,
                n == e.graph.order(),
                e.wf(),
                forall|i: int| 0 <= i < all_edges@.len() ==> (#[trigger] all_edges@[i]).0 < all_edges@[i].1 < n,
                best_edges@.len() == 0 ==> best_delta == i64::MAX,
                step == 0 ==> forall|j: int| 0 <= j < tabu@.len() ==> #[trigger] tabu@[j] == 0,
                step == 0 && idx > 0 ==> best_edges@.len() > 0,
                forall|j: int| 0 <= j < best_edges@.len() ==> {
                    let b = #[trigger] best_edges@[j];
                    &&& b < num_edges
                    &&& best_delta == crate::clique::red_delta(e.adj_nbrs.masks@, k as nat, all_edges@[b as int].0 as int, all_edges@[b as int].1 as int)
                        + crate::clique::blue_delta(e.adj_nbrs.masks@, e.comp_nbrs.masks@, ell as nat, all_edges@[b as int].0 as int, all_edges@[b as int].1 as int)
                },
            decreases num_edges - idx,
        {
            assert(step == 0 ==> tabu@[idx as int] == 0);
            if tabu[idx] <= step {
                let (u, v) = all_edges[idx];
                proof {
                    lemma_through_bounds(e.adj_nbrs.masks@, k as nat, u as int, v as int, true);
                    lemma_through_bounds(e.comp_nbrs.masks@, ell as nat, u as int, v as int, true);
                    lemma_through_bounds(e.comp_nbrs.masks@, ell as nat, u as int, v as int, false);
                }
                let (dk, de) = violation_delta(&e.adj_nbrs, &e.comp_nbrs, k, ell, u, v);
                let delta = dk + de;
                assert(delta < i64::MAX);
                if delta < best_delta {
                    best_delta = delta;
                    best_edges = Vec::new();
                    best_edges.push(idx);
                } else if delta == best_delta {
                    best_edges.push(idx);
                }
            }
            idx = idx + 1;
        }
        if best_edges.len() == 0 {
            break;
        }
        let chosen = choose_position(rng, best_edges.as_slice());
        proof {
            let j = choose|j: int| 0 <= j < best_edges@.len() && best_edges@[j] == chosen;
            assert(best_edges@[j] == chosen);
        }
        let (u, v) = all_edges[chosen];
        proof {
            lemma_flip_violations(*e, k as nat, ell as nat, u as int, v as int);
            lemma_through_bounds(e.adj_nbrs.masks@, k as nat, u as int, v as int, true);
            lemma_through_bounds(e.comp_nbrs.masks@, ell as nat, u as int, v as int, true);
            lemma_through_bounds(e.comp_nbrs.masks@, ell as nat, u as int, v as int, false);
        }
        e.flip(u, v);
        proof {
            let p = (u as int, v as int);
            assert(flips.push(p).drop_last() =~= flips);
            flips = flips.push(p);
        }
        tabu[chosen] = if step <= u64::MAX - tenure {
            step + tenure
        } else {
            u64::MAX
        };
        proof {
            lemma_cliques_of_small(e.adj_nbrs.masks@, k as nat, nn);
            lemma_cliques_of_small(e.comp_nbrs.masks@, ell as nat, nn);
        }
        cur_violations = if best_delta < 0 {
            cur_violations - ((0 - best_delta) as u64)
        } else {
            cur_violations + (best_delta as u64)
        };
        step = step + 1;
        *iters_used = *iters_used + 1;
    }
    if cur_violations == 0 {
        let actual = count_violations(&e.graph, k, ell);
        actual == 0
    } else {
        false
    }
}

/// The 4-cliques of the graph on `0..n` plus those of its complement.
pub open spec fn four_total(edges: Set<(int, int)>, n: int) -> int {
    (graph_cliques(edges, n, 4) + graph_cliques(complement_edges(edges, n), n, 4)) as int
}

/// One greedy choice on the pair `p`: the pair is flipped when that lowers
/// the violation count, left when it raises it, and on a tie flipped when
/// that lowers the 4-clique total, left when it raises it, either way
/// otherwise.
pub open spec fn greedy_choice(g: Set<(int, int)>, h: Set<(int, int)>, p: (u32, u32), n: int, k: nat, ell: nat) -> bool {
    let f = toggle(g, ordered(p.0 as int, p.1 as int));
    let d = violation_count(f, n, k, ell) - violation_count(g, n, k, ell);
    let d4 = four_total(f, n) - four_total(g, n);
    &&& h == f || h == g
    &&& d < 0 ==> h == f
    &&& d > 0 ==> h == g
    &&& d == 0 && d4 < 0 ==> h == f
    &&& d == 0 && d4 > 0 ==> h == g
}

/// `g` is what the greedy construction builds on `n` vertices from the
/// empty graph, visiting every pair once in the order `order`, through the
/// graphs `gs`.
pub open spec fn greedy_build(g: Set<(int, int)>, n: int, k: nat, ell: nat, order: Seq<(u32, u32)>, gs: Seq<Set<(int, int)>>) -> bool {
    &&& order.no_duplicates()
    &&& forall|x: u32, y: u32| #[trigger] order.contains((x, y)) <==> x < y < n
    &&& gs.len() == order.len() + 1
    &&& gs[0] == Set::<(int, int)>::empty()
    &&& forall|i: int| 0 <= i < order.len() ==> #[trigger] greedy_choice(gs[i], gs[i + 1], order[i], n, k, ell)
    &&& gs.last() == g
}

/// Build one graph greedily: from the empty graph, visit the pairs in a
/// random order and add each pair when that lowers the violation count,
/// leave it out when that raises it, and on a tie decide by the 4-clique
/// counts, then by a coin.
fn construct_once(all_edges: &Vec<(u32, u32)>, n: u32, k: u32, ell: u32, rng: &mut SmallRng) -> (e: BeamEntry)
    requires
        n <= 63,
        forall|i: int| 0 <= i < all_edges@.len() ==> (#[trigger] all_edges@[i]).0 < all_edges@[i].1 < n,
        forall|a: u32, b: u32| #[trigger] all_edges@.contains((a, b)) <==> a < b < n,
        all_edges@.no_duplicates(),
    ensures
        e.wf(),
        e.graph.order() == n,
        exists|order: Seq<(u32, u32)>, gs: Seq<Set<(int, int)>>|
            #[trigger] greedy_build(e.graph@, n as int, k as nat, ell as nat, order, gs),
{
    assert(n * (n - 1) <= 63 * 62) by (nonlinear_arith)
        requires
            n <= 63,
    ;
    let mut e = BeamEntry::from_graph(AdjacencyMatrix::new(n), k, ell);
    let mut order = copy_pairs(all_edges);
    let ghost before = order@;
    shuffle_items(rng, &mut order);
    proof {
        before.to_multiset_ensures();
        order@.to_multiset_ensures();
        assert forall|i: int| 0 <= i < order@.len() implies (#[trigger] order@[i]).0 < order@[i].1 < n by {
            assert(before.contains(order@[i]));
        }
        assert forall|x: u32, y: u32| #[trigger] order@.contains((x, y)) <==> x < y < n by {
            if x < y < n {
                assert(before.contains((x, y)));
                assert(before.to_multiset().count((x, y)) > 0);
            }
            if order@.contains((x, y)) {
                assert(before.to_multiset().count((x, y)) > 0);
                assert(before.contains((x, y)));
            }
        }
        before.lemma_multiset_has_no_duplicates();
        order@.lemma_multiset_has_no_duplicates_conv();
    }
    let ghost mut gs: Seq<Set<(int, int)>> = seq![e.graph@];
    let mut i: usize = 0;
    while i < order.len()
        invariant
            i <= order@.len(),
            e.wf(),
            e.graph.order() == n,
            forall|j: int| 0 <= j < order@.len() ==> (#[trigger] order@[j]).0 < order@[j].1 < n,
            gs.len() == i + 1,
            gs[0] == Set::<(int, int)>::empty(),
            gs[i as int] == e.graph@,
            forall|j: int| 0 <= j < i ==> #[trigger] greedy_choice(gs[j], gs[j + 1], order@[j], n as int, k as nat, ell as nat),
        decreases order@.len() - i,
    {
        let ghost g_before = e.graph@;
        let ghost e_before = e;
        let (u, v) = order[i];
        proof {
            lemma_through_bounds(e.adj_nbrs.masks@, k as nat, u as int, v as int, true);
            lemma_through_bounds(e.comp_nbrs.masks@, ell as nat, u as int, v as int, true);
            lemma_through_bounds(e.comp_nbrs.masks@, ell as nat, u as int, v as int, false);
            lemma_through_bounds(e.adj_nbrs.masks@, 4, u as int, v as int, true);
            lemma_through_bounds(e.comp_nbrs.masks@, 4, u as int, v as int, true);
            lemma_through_bounds(e.comp_nbrs.masks@, 4, u as int, v as int, false);
        }
        let (dk, de) = violation_delta(&e.adj_nbrs, &e.comp_nbrs, k, ell, u, v);
        let net = dk + de;
        let do_flip = if net < 0 {
            true
        } else if net > 0 {
            false
        } else {
            let (dk4, de4) = violation_delta(&e.adj_nbrs, &e.comp_nbrs, 4, 4, u, v);
            let net4 = dk4 + de4;
            if net4 < 0 {
                true
            } else if net4 > 0 {
                false
            } else {
                random_coin(rng)
            }
        };
        proof {
            lemma_entry_flip(e_before, k as nat, ell as nat, u as int, v as int);
            lemma_entry_flip(e_before, 4, 4, u as int, v as int);
        }
        if do_flip {
            e.flip(u, v);
        }
        proof {
            let g0 = gs;
            gs = gs.push(e.graph@);
            assert(greedy_choice(g_before, e.graph@, (u, v), n as int, k as nat, ell as nat));
            assert forall|j: int| 0 <= j < i + 1 implies #[trigger] greedy_choice(gs[j], gs[j + 1], order@[j], n as int, k as nat, ell as nat) by {
                if j < i {
                    assert(gs[j] == g0[j] && gs[j + 1] == g0[j + 1]);
                }
            }
        }
        i = i + 1;
    }
    assert(greedy_build(e.graph@, n as int, k as nat, ell as nat, order@, gs));
    e
}

/// `g` is a graph the greedy construction can build on `n` vertices.
pub open spec fn is_greedy_build(g: Set<(int, int)>, n: int, k: nat, ell: nat) -> bool {
    exists|order: Seq<(u32, u32)>, gs: Seq<Set<(int, int)>>| #[trigger] greedy_build(g, n, k, ell, order, gs)
}

/// What every construction round satisfies, given the graphs `builds` it
/// constructed (at least one): each is a greedy build, and when any is
/// valid the round found a valid graph.
pub open spec fn construct_outcome(n: int, k: nat, ell: nat, r: SearchResult, builds: Seq<Set<(int, int)>>) -> bool {
    &&& builds.len() >= 1
    &&& forall|i: int| 0 <= i < builds.len() ==> #[trigger] is_greedy_build(builds[i], n, k, ell)
    &&& (exists|i: int| 0 <= i < builds.len() && violation_count(#[trigger] builds[i], n, k, ell) == 0) ==> r.valid
}

impl ConstructSearch {
    /// Build graphs greedily until the iteration budget is spent (each
    /// construction costs one iteration per pair, each repair step one
    /// more). A valid construction is reported and polished; one with at
    /// most `repair_threshold` violations is repaired by tabu search within
    /// the budget left, and reported and polished when that succeeds. The
    /// best graph is the valid one with the lowest `(max, min)` 4-clique
    /// counts. Of the graphs found, only those whose CID (`cid_of`, meant
    /// to name the isomorphism class) is not among `known_cids` nor that of
    /// an earlier one are handed back.
    pub fn search<F: Fn(&AdjacencyMatrix) -> GraphCid>(
        &self,
        n: u32,
        max_iters: u64,
        seed: u64,
        cfg: &ConstructConfig,
        known_cids: Vec<GraphCid>,
        cid_of: F,
    ) -> (r: SearchResult)
        requires
            2 <= n <= 63,
            max_iters <= u64::MAX - 2016,
            cfg.polish_max_steps + cfg.polish_tabu_tenure <= u32::MAX,
            forall|g: &AdjacencyMatrix| g.wf() ==> #[trigger] cid_of.requires((g,)),
        ensures
            all_valid(r.discoveries@, n as int, cfg.k as nat, cfg.ell as nat),
            r.valid <==> r.best_graph is Some,
            exists|found: Seq<RawDiscovery>, known1: Seq<GraphCid>, c: Seq<GraphCid>, pos: Seq<int>|
                #[trigger] kept_new(cid_of, found, known_cids@, known1, r.discoveries@, c, pos) && all_valid(
                    found,
                    n as int,
                    cfg.k as nat,
                    cfg.ell as nat,
                ) && (r.valid <==> found.len() > 0) && (r.best_graph matches Some(b) ==> forall|i: int|
                    0 <= i < found.len() ==> !key_less(four_key((#[trigger] found[i]).graph@, n as int), four_key(b@, n as int))),
            r.best_graph matches Some(g) ==> g.wf() && g.order() == n && violation_count(
                g@,
                n as int,
                cfg.k as nat,
                cfg.ell as nat,
            ) == 0,
            max_iters <= r.iterations_used,
            r.iterations_used < max_iters + n * (n - 1) / 2,
            max_iters > 0 ==> exists|builds: Seq<Set<(int, int)>>|
                #[trigger] construct_outcome(n as int, cfg.k as nat, cfg.ell as nat, r, builds),
    {
        let k = cfg.k;
        let ell = cfg.ell;
        let mut rng = seeded_rng(seed);
        let all_edges = all_pairs_list(n);
        assert(n * (n - 1) <= 63 * 62) by (nonlinear_arith)
            requires
                2 <= n <= 63,
        ;
        assert(n * (n - 1) / 2 >= 1) by (nonlinear_arith)
            requires
                2 <= n,
        ;
        let num_edges = (n * (n - 1) / 2) as u64;
        let mut findings = Findings::new();
        let mut iters_used: u64 = 0;
        let ghost mut builds: Seq<Set<(int, int)>> = Seq::empty();
        while iters_used < max_iters
            invariant
                iters_used > 0 ==> builds.len() >= 1,
                forall|i: int| 0 <= i < builds.len() ==> #[trigger] is_greedy_build(builds[i], n as int, k as nat, ell as nat),
                (exists|i: int| 0 <= i < builds.len() && violation_count(#[trigger] builds[i], n as int, k as nat, ell as nat) == 0)
                    ==> findings.discoveries@.len() > 0,
                2 <= n <= 63,
                k == cfg.k,
                ell == cfg.ell,
                num_edges == n * (n - 1) / 2,
                1 <= num_edges <= 1953,
                max_iters <= u64::MAX - 2016,
                forall|i: int| 0 <= i < all_edges@.len() ==> (#[trigger] all_edges@[i]).0 < all_edges@[i].1 < n,
                forall|a: u32, b: u32| #[trigger] all_edges@.contains((a, b)) <==> a < b < n,
                all_edges@.no_duplicates(),
                cfg.polish_max_steps + cfg.polish_tabu_tenure <= u32::MAX,
                iters_used + 1 <= max_iters + num_edges,
                findings.inv(n as int, k as nat, ell as nat),
                findings.lowest(n as int),
                findings.best is Some <==> findings.discoveries@.len() > 0,
            decreases max_iters + num_edges - iters_used,
        {
            let mut e = construct_once(&all_edges, n, k, ell, &mut rng);
            let ghost b0 = builds;
            proof {
                builds = builds.push(e.graph@);
                assert forall|i: int| 0 <= i < builds.len() implies #[trigger] is_greedy_build(builds[i], n as int, k as nat, ell as nat) by {
                    if i < b0.len() {
                        assert(builds[i] == b0[i]);
                    }
                }
            }
            let ghost trial_start = iters_used;
            iters_used = iters_used + num_edges;
            let violations = count_violations(&e.graph, k, ell);
            if violations == 0 {
                findings.report_valid(
                    &e.graph,
                    k,
                    ell,
                    cfg.polish_max_steps,
                    cfg.polish_tabu_tenure,
                    MAX_CONSTRUCT_POLISH,
                    iters_used,
                );
            } else if violations <= cfg.repair_threshold && cfg.repair_max_iters > 0 {
                let left = if max_iters > iters_used {
                    max_iters - iters_used
                } else {
                    0
                };
                let budget = if cfg.repair_max_iters <= left {
                    cfg.repair_max_iters
                } else {
                    left
                };
                let repaired = tabu_repair(&mut e, &all_edges, k, ell, budget, &mut iters_used, &mut rng);
                if repaired {
                    findings.report_valid(
                        &e.graph,
                        k,
                        ell,
                        cfg.polish_max_steps,
                        cfg.polish_tabu_tenure,
                        MAX_CONSTRUCT_POLISH,
                        iters_used,
                    );
                }
            }
        }
        let Findings { discoveries, best, .. } = findings;
        let valid = best.is_some();
        let mut known = known_cids;
        let kept = keep_new_discoveries(&discoveries, &mut known, &cid_of);
        let ghost kept_view = kept@;
        proof {
            let (c, pos) = choose|c: Seq<GraphCid>, pos: Seq<int>|
                #[trigger] kept_new(cid_of, discoveries@, known_cids@, known@, kept@, c, pos);
            lemma_kept_valid(cid_of, discoveries@, known_cids@, known@, kept@, c, pos, n as int, cfg.k as nat, cfg.ell as nat);
        }
        let r = SearchResult { best_graph: best, valid, iterations_used: iters_used, discoveries: kept };
        proof {
            assert(r.discoveries@ == kept_view);
            if max_iters > 0 {
                assert(construct_outcome(n as int, k as nat, ell as nat, r, builds));
            }
        }
        r
    }
}

} // verus!
