//! Path relinking: walks between pairs of pooled graphs, flipping one of
//! the pairs on which they differ at a time while staying within a
//! tolerance of violations, and reporting every valid graph met on the way.

use rand::rngs::SmallRng;
use vstd::prelude::*;

use crate::adjacency::{AdjacencyMatrix, is_vertex_pair, ordered};
use crate::beam::{copy_pairs, found_graph, lemma_found_grows};
use crate::clique::{lemma_cliques_of_small, lemma_through_bounds, violation_delta};
use crate::construct::violations_are;
use crate::gradient::lemma_entry_flip;
use crate::histogram::complement_edges;
use crate::polish::{Findings, all_valid, count_violations, four_clique_key, four_key, key_less, key_lt, violation_count};
use crate::random::{seeded_rng, shuffle_items, toggle};
use crate::search::{RawDiscovery, RelinkSearch, SearchResult};
use crate::template::{cid_known, contains_cid};
use crate::tree2::BeamEntry;
use crate::types::GraphCid;

verus! {

/// The parameters of a relinking round.
pub struct RelinkConfig {
    /// Clique size to avoid in the graph.
    pub k: u32,
    /// Clique size to avoid in the complement.
    pub ell: u32,
    /// Most graphs the pool takes in.
    pub pool_capacity: usize,
    /// Most violations a walk may pass through.
    pub max_violations: u64,
    /// Steps of each polish walk (zero: no polishing).
    pub polish_max_steps: u32,
    /// Steps a pair stays tabu while polishing.
    pub polish_tabu_tenure: u32,
}

impl RelinkConfig {
    /// The parameters a round uses when none are given.
    pub fn defaults() -> (r: Self)
        ensures
            r.k == 5,
            r.ell == 5,
            r.pool_capacity == 50,
            r.max_violations == 2,
            r.polish_max_steps == 100,
            r.polish_tabu_tenure == 25,
    {
        RelinkConfig { k: 5, ell: 5, pool_capacity: 50, max_violations: 2, polish_max_steps: 100, polish_tabu_tenure: 25 }
    }
}

/// Most polish walks per round.
pub const MAX_RELINK_POLISH: u32 = 20;

/// State carried between relinking rounds.
pub struct RelinkState {
    /// The graphs walked between.
    pub pool: Vec<AdjacencyMatrix>,
    /// The CIDs of the pool's graphs.
    pub pool_cids: Vec<GraphCid>,
    /// Pairs of pool positions `(i, j)`, `i < j`, already walked between.
    pub explored_pairs: Vec<(usize, usize)>,
}

impl RelinkState {
    /// An empty pool with nothing explored.
    pub fn new() -> (r: Self)
        ensures
            r.pool@.len() == 0,
            r.pool_cids@.len() == 0,
            r.explored_pairs@.len() == 0,
    {
        RelinkState { pool: Vec::new(), pool_cids: Vec::new(), explored_pairs: Vec::new() }
    }

    /// The pool holds graphs on `n` vertices.
    pub open spec fn ready(&self, n: int) -> bool {
        forall|i: int| 0 <= i < self.pool@.len() ==> (#[trigger] self.pool@[i]).wf() && self.pool@[i].order() == n
    }
}

/// A candidate move: its place among the remaining pairs, the pair, the
/// change in the violation count and the change in the 4-clique count.
pub type RelinkMove = (usize, u32, u32, i64, i64);

/// One relinking step from `g` to `h`: `h` is `g` with a pair of `diff`
/// flipped, and has at most `max_violations` violations.
pub open spec fn relink_step(g: Set<(int, int)>, h: Set<(int, int)>, n: int, k: nat, ell: nat, max_violations: u64, diff: Seq<(u32, u32)>) -> bool {
    exists|t: int|
        0 <= t < diff.len() && h == toggle(g, ordered(#[trigger] diff[t].0 as int, diff[t].1 as int))
            && violation_count(h, n, k, ell) <= max_violations
}

/// A relinking walk from `source` over the pairs of `diff`: relinking
/// steps, at most one per pair, each valid graph met among `found`.
pub open spec fn relink_walk(
    source: Set<(int, int)>,
    n: int,
    k: nat,
    ell: nat,
    max_violations: u64,
    diff: Seq<(u32, u32)>,
    walk: Seq<Set<(int, int)>>,
    found: Seq<RawDiscovery>,
) -> bool {
    &&& 1 <= walk.len() <= diff.len() + 1
    &&& walk[0] == source
    &&& forall|i: int| 0 <= i < walk.len() - 1 ==> #[trigger] relink_step(walk[i], walk[i + 1], n, k, ell, max_violations, diff)
    &&& forall|i: int| 1 <= i < walk.len() && violation_count(#[trigger] walk[i], n, k, ell) == 0 ==> found_graph(found, walk[i])
}

/// Walk from `source` over the pairs of `diff`, taken in a random order:
/// each step flips, among the pairs not yet flipped whose flip keeps at
/// most `max_violations` violations, the one with the lowest violation
/// change (then the lowest 4-clique change, counted only when the flip
/// leaves the graph valid; the first found on a tie). Each evaluation costs
/// an iteration; the walk stops when every pair is flipped, no pair
/// qualifies, or the budget is spent. Every valid graph met is reported
/// (at the iteration count then reached) and gives back the one with the
/// lowest 4-clique key.
fn relink_path(
    source: &AdjacencyMatrix,
    diff: &Vec<(u32, u32)>,
    cfg: &RelinkConfig,
    findings: &mut Findings,
    iters: &mut u64,
    max_iters: u64,
    rng: &mut SmallRng,
) -> (r: Option<AdjacencyMatrix>)
    requires
        source.wf(),
        1 <= source.order() <= 63,
        forall|i: int| 0 <= i < diff@.len() ==> (#[trigger] diff@[i]).0 < diff@[i].1 < source.order(),
        diff@.len() <= 4096,
        diff@.no_duplicates(),
        max_iters <= u64::MAX - 8192,
        *old(iters) <= max_iters + 8192,
        old(findings).inv(source.order() as int, cfg.k as nat, cfg.ell as nat),
        old(findings).lowest(source.order() as int),
        old(findings).best is Some <==> old(findings).discoveries@.len() > 0,
        cfg.polish_max_steps + cfg.polish_tabu_tenure <= u32::MAX,
    ensures
        final(findings).inv(source.order() as int, cfg.k as nat, cfg.ell as nat),
        final(findings).lowest(source.order() as int),
        final(findings).best is Some <==> final(findings).discoveries@.len() > 0,
        final(findings).discoveries@.len() >= old(findings).discoveries@.len(),
        *old(iters) <= *final(iters),
        *final(iters) <= if *old(iters) >= max_iters {
            *old(iters) as int
        } else {
            max_iters + 2 * diff@.len()
        },
        r matches Some(g) ==> g.wf() && g.order() == source.order() && violation_count(
            g@,
            source.order() as int,
            cfg.k as nat,
            cfg.ell as nat,
        ) == 0,
        r is Some <==> final(findings).discoveries@.len() > old(findings).discoveries@.len(),
        *old(iters) < max_iters && diff@.len() > 0 ==> *old(iters) < *final(iters),
        final(findings).discoveries@.take(old(findings).discoveries@.len() as int) == old(findings).discoveries@,
        exists|walk: Seq<Set<(int, int)>>|
            #[trigger] relink_walk(
                source@,
                source.order() as int,
                cfg.k as nat,
                cfg.ell as nat,
                cfg.max_violations,
                diff@,
                walk,
                final(findings).discoveries@,
            ) && walk.len() - 1 <= *final(iters) - *old(iters) && (*final(iters) >= max_iters || forall|x: u32, y: u32|
                #[trigger] diff@.contains((x, y)) && walk.last().contains((x as int, y as int)) == source@.contains(
                    (x as int, y as int),
                ) ==> violation_count(
                    toggle(walk.last(), (x as int, y as int)),
                    source.order() as int,
                    cfg.k as nat,
                    cfg.ell as nat,
                ) > cfg.max_violations),
{
    let n = source.n();
    let ghost nn = n as int;
    let k = cfg.k;
    let ell = cfg.ell;
    let mut e = BeamEntry::from_graph(source.copy_of(), k, ell);
    let mut violations = e.violations;
    let mut remaining = copy_pairs(diff);
    let ghost listed = remaining@;
    shuffle_items(rng, &mut remaining);
    proof {
        assert forall|i: int| 0 <= i < remaining@.len() implies (#[trigger] remaining@[i]).0 < remaining@[i].1 < n by {
            assert(listed.contains(remaining@[i]));
        }
        listed.to_multiset_ensures();
        remaining@.to_multiset_ensures();
        listed.lemma_multiset_has_no_duplicates();
        remaining@.lemma_multiset_has_no_duplicates_conv();
        assert forall|x: u32, y: u32| #[trigger] diff@.contains((x, y)) implies remaining@.contains((x, y)) by {
            assert(listed.to_multiset().count((x, y)) > 0);
        }
    }
    let mut path_best: Option<AdjacencyMatrix> = None;
    let mut path_key: (u64, u64) = (0, 0);
    let mut since_recount: u32 = 0;
    let ghost start_iters = *iters;
    let ghost found0 = findings.discoveries@.len();
    let ghost d_start = findings.discoveries@;
    let ghost mut walk: Seq<Set<(int, int)>> = seq![e.graph@];
    assert(remaining@.len() == diff@.len());
    proof {
        assert forall|i: int| 0 <= i < remaining@.len() implies diff@.contains(#[trigger] remaining@[i]) by {
            assert(listed.contains(remaining@[i]));
        }
        assert(findings.discoveries@.take(found0 as int) =~= d_start);
    }
    while remaining.len() > 0 && *iters < max_iters
        invariant
            n == e.graph.order(),
            nn == n,
            1 <= n <= 63,
            k == cfg.k,
            ell == cfg.ell,
            e.wf(),
            violations_are(e, violations, k as nat, ell as nat),
            remaining@.len() <= diff@.len(),
            diff@.len() <= 4096,
            max_iters <= u64::MAX - 8192,
            forall|i: int| 0 <= i < remaining@.len() ==> (#[trigger] remaining@[i]).0 < remaining@[i].1 < n,
            start_iters <= *iters,
            *iters <= if start_iters >= max_iters {
                start_iters as int
            } else {
                max_iters + 2 * diff@.len()
            },
            since_recount <= 50,
            findings.inv(nn, k as nat, ell as nat),
            findings.lowest(nn),
            findings.best is Some <==> findings.discoveries@.len() > 0,
            found0 <= findings.discoveries@.len(),
            cfg.polish_max_steps + cfg.polish_tabu_tenure <= u32::MAX,
            path_best matches Some(g) ==> g.wf() && g.order() == n && violation_count(g@, nn, k as nat, ell as nat) == 0,
            path_best is Some <==> found0 < findings.discoveries@.len(),
            start_iters < *iters || remaining@.len() == diff@.len(),
            forall|i: int| 0 <= i < remaining@.len() ==> diff@.contains(#[trigger] remaining@[i]),
            findings.discoveries@.take(found0 as int) == d_start,
            d_start == old(findings).discoveries@,
            found0 == d_start.len(),
            walk.len() - 1 + remaining@.len() == diff@.len(),
            walk.len() - 1 <= *iters - start_iters,
            e.graph@ == walk.last(),
            relink_walk(source@, nn, k as nat, ell as nat, cfg.max_violations, diff@, walk, findings.discoveries@),
            remaining@.no_duplicates(),
            forall|x: u32, y: u32| #[trigger] diff@.contains((x, y)) ==> (remaining@.contains((x, y)) <==> e.graph@.contains(
                (x as int, y as int),
            ) == source@.contains((x as int, y as int))),
        ensures
            forall|x: u32, y: u32| #[trigger] diff@.contains((x, y)) ==> (remaining@.contains((x, y)) <==> e.graph@.contains(
                (x as int, y as int),
            ) == source@.contains((x as int, y as int))),
            e.graph@ == walk.last(),
            *iters >= max_iters || forall|x: u32, y: u32| #[trigger] remaining@.contains((x, y)) ==> violation_count(
                toggle(e.graph@, (x as int, y as int)),
                nn,
                k as nat,
                ell as nat,
            ) > cfg.max_violations,
            findings.discoveries@.take(found0 as int) == d_start,
            walk.len() - 1 <= *iters - start_iters,
            relink_walk(source@, nn, k as nat, ell as nat, cfg.max_violations, diff@, walk, findings.discoveries@),
            path_best matches Some(g) ==> g.wf() && g.order() == n && violation_count(g@, nn, k as nat, ell as nat) == 0,
            path_best is Some <==> found0 < findings.discoveries@.len(),
            findings.inv(nn, k as nat, ell as nat),
            findings.lowest(nn),
            findings.best is Some <==> findings.discoveries@.len() > 0,
            found0 <= findings.discoveries@.len(),
            start_iters <= *iters,
            *iters <= if start_iters >= max_iters {
                start_iters as int
            } else {
                max_iters + 2 * diff@.len()
            },
            start_iters < max_iters && diff@.len() > 0 ==> start_iters < *iters,
        decreases remaining@.len(),
    {
        let ghost pass_start = *iters;
        let mut best: Option<RelinkMove> = None;
        let mut idx: usize = 0;
        while idx < remaining.len()
            invariant
                idx <= remaining@.len(),
                n == e.graph.order(),
                nn == n,
                1 <= n <= 63,
                e.wf(),
                violations_are(e, violations, k as nat, ell as nat),
                forall|i: int| 0 <= i < remaining@.len() ==> (#[trigger] remaining@[i]).0 < remaining@[i].1 < n,
                pass_start < max_iters,
                max_iters <= u64::MAX - 8192,
                remaining@.len() <= 4096,
                *iters <= pass_start + 2 * idx,
                pass_start + idx <= *iters,
                best matches Some(m) ==> violations + m.3 <= cfg.max_violations,
                best is None ==> forall|j: int| 0 <= j < idx ==> violation_count(
                    toggle(e.graph@, ordered(#[trigger] remaining@[j].0 as int, remaining@[j].1 as int)),
                    nn,
                    k as nat,
                    ell as nat,
                ) > cfg.max_violations,
                best matches Some(m) ==> m.0 < remaining@.len() && m.1 == remaining@[m.0 as int].0 && m.2
                    == remaining@[m.0 as int].1 && m.3 == crate::clique::red_delta(
                    e.adj_nbrs.masks@,
                    k as nat,
                    m.1 as int,
                    m.2 as int,
                ) + crate::clique::blue_delta(e.adj_nbrs.masks@, e.comp_nbrs.masks@, ell as nat, m.1 as int, m.2 as int),
            decreases remaining@.len() - idx,
        {
            let (u, v) = remaining[idx];
            proof {
                lemma_through_bounds(e.adj_nbrs.masks@, k as nat, u as int, v as int, true);
                lemma_through_bounds(e.comp_nbrs.masks@, ell as nat, u as int, v as int, true);
                lemma_through_bounds(e.comp_nbrs.masks@, ell as nat, u as int, v as int, false);
                lemma_through_bounds(e.adj_nbrs.masks@, 4, u as int, v as int, true);
                lemma_through_bounds(e.comp_nbrs.masks@, 4, u as int, v as int, true);
                lemma_through_bounds(e.comp_nbrs.masks@, 4, u as int, v as int, false);
                lemma_entry_flip(e, k as nat, ell as nat, u as int, v as int);
                lemma_cliques_of_small(
                    crate::clique::graph_masks(toggle(e.graph@, ordered(u as int, v as int)), nn),
                    k as nat,
                    nn,
                );
                lemma_cliques_of_small(
                    crate::clique::graph_masks(complement_edges(toggle(e.graph@, ordered(u as int, v as int)), nn), nn),
                    ell as nat,
                    nn,
                );
            }
            let (dk, de) = violation_delta(&e.adj_nbrs, &e.comp_nbrs, k, ell, u, v);
            let net = dk + de;
            let new_violations: u64 = if net < 0 {
                violations - ((0 - net) as u64)
            } else {
                violations + (net as u64)
            };
            *iters = *iters + 1;
            assert(new_violations == violation_count(toggle(e.graph@, ordered(u as int, v as int)), nn, k as nat, ell as nat));
            if new_violations <= cfg.max_violations {
                let score = if new_violations == 0 {
                    let (dk4, de4) = violation_delta(&e.adj_nbrs, &e.comp_nbrs, 4, 4, u, v);
                    *iters = *iters + 1;
                    dk4 + de4
                } else {
                    0
                };
                let better = match &best {
                    Some(m) => net < m.3 || (net == m.3 && score < m.4),
                    None => true,
                };
                if better {
                    best = Some((idx, u, v, net, score));
                }
            }
            idx = idx + 1;
        }
        if best.is_none() {
            proof {
                assert forall|x: u32, y: u32| #[trigger] remaining@.contains((x, y)) implies violation_count(
                    toggle(e.graph@, (x as int, y as int)),
                    nn,
                    k as nat,
                    ell as nat,
                ) > cfg.max_violations by {
                    let j = choose|j: int| 0 <= j < remaining@.len() && remaining@[j] == (x, y);
                    assert(ordered(remaining@[j].0 as int, remaining@[j].1 as int) == (x as int, y as int));
                }
            }
            break;
        }
        let (at, u, v, net) = match best {
            Some(m) => (m.0, m.1, m.2, m.3),
            None => (0, 0, 1, 0),
        };
        proof {
            lemma_through_bounds(e.adj_nbrs.masks@, k as nat, u as int, v as int, true);
            lemma_through_bounds(e.comp_nbrs.masks@, ell as nat, u as int, v as int, true);
            lemma_through_bounds(e.comp_nbrs.masks@, ell as nat, u as int, v as int, false);
            lemma_entry_flip(e, k as nat, ell as nat, u as int, v as int);
            lemma_cliques_of_small(
                crate::clique::graph_masks(toggle(e.graph@, ordered(u as int, v as int)), nn),
                k as nat,
                nn,
            );
            lemma_cliques_of_small(
                crate::clique::graph_masks(complement_edges(toggle(e.graph@, ordered(u as int, v as int)), nn), nn),
                ell as nat,
                nn,
            );
        }
        let ghost w_prev = walk;
        let ghost g_prev = e.graph@;
        let ghost v_prev = violations;
        e.flip(u, v);
        violations = if net < 0 {
            violations - ((0 - net) as u64)
        } else {
            violations + (net as u64)
        };
        let ghost before = remaining@;
        remaining.swap_remove(at);
        proof {
            assert forall|i: int| 0 <= i < remaining@.len() implies (#[trigger] remaining@[i]).0 < remaining@[i].1 < n by {
                if i == at {
                    assert(remaining@[i] == before.last());
                } else {
                    assert(remaining@[i] == before[i]);
                }
            }
            assert forall|i: int| 0 <= i < remaining@.len() implies diff@.contains(#[trigger] remaining@[i]) by {
                if i == at {
                    assert(remaining@[i] == before.last());
                    assert(diff@.contains(before[before.len() - 1]));
                } else {
                    assert(remaining@[i] == before[i]);
                    assert(diff@.contains(before[i]));
                }
            }
            assert forall|i: int, j: int| 0 <= i < j < remaining@.len() implies remaining@[i] != remaining@[j] by {
                if i == at {
                    assert(remaining@[i] == before[before.len() - 1] && remaining@[j] == before[j]);
                } else if j == at {
                    assert(remaining@[j] == before[before.len() - 1] && remaining@[i] == before[i]);
                } else {
                    assert(remaining@[i] == before[i] && remaining@[j] == before[j]);
                }
            }
            assert forall|x: u32, y: u32| #[trigger] diff@.contains((x, y)) implies (remaining@.contains((x, y)) <==> e.graph@.contains(
                (x as int, y as int),
            ) == source@.contains((x as int, y as int))) by {
                if remaining@.contains((x, y)) {
                    let j = choose|j: int| 0 <= j < remaining@.len() && remaining@[j] == (x, y);
                    if j == at {
                        assert(before[before.len() - 1] == (x, y));
                        assert(before.contains((x, y)));
                    } else {
                        assert(before[j] == (x, y));
                    }
                    assert(before.contains((x, y)));
                    assert((x, y) != (u, v));
                } else {
                    if before.contains((x, y)) && (x, y) != (u, v) {
                        let j = choose|j: int| 0 <= j < before.len() && before[j] == (x, y);
                        if j == before.len() - 1 {
                            assert(remaining@[at as int] == (x, y));
                        } else {
                            assert(remaining@[j] == (x, y));
                        }
                    }
                }
            }
            assert(diff@.contains(before[at as int]));
            let t = choose|t: int| 0 <= t < diff@.len() && diff@[t] == before[at as int];
            assert(e.graph@ == toggle(g_prev, ordered(diff@[t].0 as int, diff@[t].1 as int)));
            assert(violation_count(e.graph@, nn, k as nat, ell as nat) <= cfg.max_violations);
            assert(relink_step(g_prev, e.graph@, nn, k as nat, ell as nat, cfg.max_violations, diff@));
            walk = walk.push(e.graph@);
            assert forall|i: int| 0 <= i < walk.len() - 1 implies #[trigger] relink_step(walk[i], walk[i + 1], nn, k as nat, ell as nat, cfg.max_violations, diff@) by {
                if i < w_prev.len() - 1 {
                    assert(walk[i] == w_prev[i] && walk[i + 1] == w_prev[i + 1]);
                }
            }
        }
        let ghost d_mid = findings.discoveries@;
        since_recount = since_recount + 1;
        if since_recount >= 50 {
            violations = count_violations(&e.graph, k, ell);
            since_recount = 0;
        }
        if violations == 0 {
            findings.report_valid(
                &e.graph,
                k,
                ell,
                cfg.polish_max_steps,
                cfg.polish_tabu_tenure,
                MAX_RELINK_POLISH,
                *iters,
            );
            let key = four_clique_key(&e.graph);
            let better = match &path_best {
                Some(_) => key_lt(key, path_key),
                None => true,
            };
            if better {
                path_best = Some(e.graph.copy_of());
                path_key = key;
            }
        }
        proof {
            assert(findings.discoveries@.take(d_mid.len() as int) == d_mid);
            assert(findings.discoveries@.take(found0 as int) =~= d_mid.take(found0 as int));
            assert forall|i: int| 1 <= i < walk.len() && violation_count(#[trigger] walk[i], nn, k as nat, ell as nat) == 0 implies found_graph(findings.discoveries@, walk[i]) by {
                if i < walk.len() - 1 {
                    assert(walk[i] == w_prev[i]);
                    lemma_found_grows(d_mid, findings.discoveries@, walk[i]);
                } else {
                    assert(findings.discoveries@[d_mid.len() as int].graph@ == e.graph@);
                }
            }
        }
    }
    path_best
}

/// Whether `pairs` lists `p`.
fn contains_pair(pairs: &Vec<(usize, usize)>, p: (usize, usize)) -> (r: bool)
    ensures
        r == pairs@.contains(p),
{
    let mut i: usize = 0;
    while i < pairs.len()
        invariant
            i <= pairs@.len(),
            forall|j: int| 0 <= j < i ==> pairs@[j] != p,
        decreases pairs@.len() - i,
    {
        if pairs[i].0 == p.0 && pairs[i].1 == p.1 {
            assert(pairs@[i as int] == p);
            return true;
        }
        i = i + 1;
    }
    false
}

/// The pairs `(u, v)`, `u < v < n`, on which `a` and `b` differ, in
/// row-major order.
fn differing_pairs(a: &AdjacencyMatrix, b: &AdjacencyMatrix, n: u32) -> (r: Vec<(u32, u32)>)
    requires
        a.wf(),
        b.wf(),
        a.order() == n,
        b.order() == n,
        n <= 63,
    ensures
        forall|i: int| 0 <= i < r@.len() ==> (#[trigger] r@[i]).0 < r@[i].1 < n,
        forall|u: u32, v: u32| #[trigger] r@.contains((u, v)) <==> u < v < n && a@.contains((u as int, v as int)) != b@.contains(
            (u as int, v as int),
        ),
        r@.len() <= n * n,
        r@.no_duplicates(),
{
    let mut r: Vec<(u32, u32)> = Vec::new();
    let mut u: u32 = 0;
    while u < n
        invariant
            u <= n,
            n <= 63,
            a.wf(),
            b.wf(),
            a.order() == n,
            b.order() == n,
            r@.len() <= u * n,
            r@.no_duplicates(),
            forall|i: int| 0 <= i < r@.len() ==> (#[trigger] r@[i]).0 < r@[i].1 < n && r@[i].0 < u,
            forall|x: u32, y: u32| #[trigger] r@.contains((x, y)) <==> x < y < n && x < u && a@.contains((x as int, y as int))
                != b@.contains((x as int, y as int)),
        decreases n - u,
    {
        let mut v: u32 = u + 1;
        while v < n
            invariant
                u < n,
                u + 1 <= v <= n,
                n <= 63,
                a.wf(),
                b.wf(),
                a.order() == n,
                b.order() == n,
                r@.len() <= u * n + v,
                r@.no_duplicates(),
                forall|i: int| 0 <= i < r@.len() ==> (#[trigger] r@[i]).0 < r@[i].1 < n && (r@[i].0 < u || (r@[i].0 == u
                    && r@[i].1 < v)),
                forall|x: u32, y: u32| #[trigger] r@.contains((x, y)) <==> x < y < n && (x < u || (x == u && y < v))
                    && a@.contains((x as int, y as int)) != b@.contains((x as int, y as int)),
            decreases n - v,
        {
            let ghost before = r@;
            if a.edge(u, v) != b.edge(u, v) {
                r.push((u, v));
                proof {
                    assert forall|i: int, j: int| 0 <= i < j < r@.len() implies r@[i] != r@[j] by {
                        if j == r@.len() - 1 {
                            assert(r@[i] == before[i]);
                        } else {
                            assert(r@[i] == before[i] && r@[j] == before[j]);
                        }
                    }
                }
            }
            proof {
                assert forall|x: u32, y: u32| #[trigger] r@.contains((x, y)) <==> x < y < n && (x < u || (x == u && y
                    < v + 1)) && a@.contains((x as int, y as int)) != b@.contains((x as int, y as int)) by {
                    if r@.contains((x, y)) {
                        let j = choose|j: int| 0 <= j < r@.len() && r@[j] == (x, y);
                        if j < before.len() {
                            assert(before[j] == (x, y));
                            assert(before.contains((x, y)));
                        }
                    }
                    if x < y < n && (x < u || (x == u && y < v + 1)) && a@.contains((x as int, y as int)) != b@.contains(
                        (x as int, y as int),
                    ) {
                        if (x, y) != (u, v) {
                            assert(before.contains((x, y)));
                            let j = choose|j: int| 0 <= j < before.len() && before[j] == (x, y);
                            assert(r@[j] == (x, y));
                        } else {
                            assert(r@[before.len() as int] == (x, y));
                        }
                    }
                }
            }
            v = v + 1;
        }
        assert(u * n + n == (u + 1) * n) by (nonlinear_arith);
        u = u + 1;
    }
    r
}

/// The pairs in reverse order.
fn reversed(pairs: &Vec<(u32, u32)>) -> (r: Vec<(u32, u32)>)
    ensures
        r@ == pairs@.reverse(),
{
    let mut r: Vec<(u32, u32)> = Vec::new();
    let mut i: usize = pairs.len();
    while i > 0
        invariant
            i <= pairs@.len(),
            r@ == pairs@.subrange(i as int, pairs@.len() as int).reverse(),
        decreases i,
    {
        i = i - 1;
        r.push(pairs[i]);
        assert(r@ =~= pairs@.subrange(i as int, pairs@.len() as int).reverse());
    }
    assert(pairs@.subrange(0, pairs@.len() as int) =~= pairs@);
    r
}

/// A step of a walk from `a` towards `b`: a pair on which they differ is
/// flipped, leaving at most `max_violations` violations.
pub open spec fn toward_step(
    a: Set<(int, int)>,
    b: Set<(int, int)>,
    g: Set<(int, int)>,
    h: Set<(int, int)>,
    n: int,
    k: nat,
    ell: nat,
    max_violations: u64,
) -> bool {
    exists|x: int, y: int|
        0 <= x < y < n && a.contains((x, y)) != b.contains((x, y)) && h == #[trigger] toggle(g, (x, y))
            && violation_count(h, n, k, ell) <= max_violations
}

/// A forward walk from `a` towards `b`: it starts at `a`, each step is a
/// `toward_step`, each valid graph met is among `found`, and it stops only
/// with the budget spent or when no pair on which `a` and `b` differ and
/// that is still unflipped can be flipped within `max_violations`.
pub open spec fn pair_walk(
    a: Set<(int, int)>,
    b: Set<(int, int)>,
    n: int,
    k: nat,
    ell: nat,
    max_violations: u64,
    walk: Seq<Set<(int, int)>>,
    found: Seq<RawDiscovery>,
    spent: bool,
) -> bool {
    &&& walk.len() >= 1
    &&& walk[0] == a
    &&& forall|i: int| 0 <= i < walk.len() - 1 ==> #[trigger] toward_step(a, b, walk[i], walk[i + 1], n, k, ell, max_violations)
    &&& forall|i: int| 1 <= i < walk.len() && violation_count(#[trigger] walk[i], n, k, ell) == 0 ==> found_graph(found, walk[i])
    &&& (spent || forall|x: int, y: int|
        0 <= x < y < n && a.contains((x, y)) != b.contains((x, y)) && walk.last().contains((x, y)) == a.contains((x, y))
            ==> violation_count(#[trigger] toggle(walk.last(), (x, y)), n, k, ell) > max_violations)
}

/// The number of steps of the walks, together.
pub open spec fn walk_steps(walks: Seq<Seq<Set<(int, int)>>>) -> int
    decreases walks.len(),
{
    if walks.len() == 0 {
        0
    } else {
        walk_steps(walks.drop_last()) + walks.last().len() - 1
    }
}

/// What a relinking round did, given the `m` pool graphs it listed pairs
/// of, the pairs `done` it took and the forward walks `walks` it made
/// between them: each pair taken was unexplored; while the budget lasts
/// every unexplored pair is taken; between two different graphs a forward
/// walk is made; each walk step costs an iteration; and the pairs taken
/// are marked explored, unless all were and the explored set was cleared.
pub open spec fn relink_outcome(
    start: RelinkState,
    m: int,
    n: int,
    k: nat,
    ell: nat,
    max_violations: u64,
    max_iters: u64,
    res: SearchResult,
    st: RelinkState,
    done: Seq<(usize, usize)>,
    walks: Seq<Seq<Set<(int, int)>>>,
) -> bool {
    &&& start.pool@.len() <= m <= st.pool@.len()
    &&& walks.len() == done.len()
    &&& walk_steps(walks) <= res.iterations_used
    &&& forall|t: int| 0 <= t < done.len() ==> (#[trigger] done[t]).0 < done[t].1 < m && !start.explored_pairs@.contains(done[t])
    &&& res.iterations_used < max_iters ==> forall|a: usize, b: usize|
        a < b < m && !start.explored_pairs@.contains((a, b)) ==> #[trigger] done.contains((a, b))
    &&& forall|t: int|
        0 <= t < done.len() && st.pool@[done[t].0 as int]@ != st.pool@[done[t].1 as int]@ ==> pair_walk(
            st.pool@[done[t].0 as int]@,
            st.pool@[done[t].1 as int]@,
            n,
            k,
            ell,
            max_violations,
            #[trigger] walks[t],
            res.discoveries@,
            res.iterations_used >= max_iters,
        )
    &&& (st.explored_pairs@ == start.explored_pairs@ + done || st.explored_pairs@.len() == 0)
}

/// A forward walk stays one when more is found and the budget is spent.
proof fn lemma_pair_walk_grows(
    a: Set<(int, int)>,
    b: Set<(int, int)>,
    n: int,
    k: nat,
    ell: nat,
    mv: u64,
    walk: Seq<Set<(int, int)>>,
    d: Seq<RawDiscovery>,
    d2: Seq<RawDiscovery>,
    s1: bool,
    s2: bool,
)
    requires
        pair_walk(a, b, n, k, ell, mv, walk, d, s1),
        d.len() <= d2.len(),
        d2.take(d.len() as int) == d,
        s1 ==> s2,
    ensures
        pair_walk(a, b, n, k, ell, mv, walk, d2, s2),
{
    assert forall|i: int| 1 <= i < walk.len() && violation_count(#[trigger] walk[i], n, k, ell) == 0 implies found_graph(d2, walk[i]) by {
        lemma_found_grows(d, d2, walk[i]);
    }
}

/// A relinking walk over the pairs on which `a` and `b` differ is a
/// forward walk from `a` towards `b`.
proof fn lemma_relink_is_pair_walk(
    a: Set<(int, int)>,
    b: Set<(int, int)>,
    n: int,
    k: nat,
    ell: nat,
    mv: u64,
    diff: Seq<(u32, u32)>,
    walk: Seq<Set<(int, int)>>,
    found: Seq<RawDiscovery>,
    spent: bool,
)
    requires
        0 <= n <= 63,
        relink_walk(a, n, k, ell, mv, diff, walk, found),
        forall|i: int| 0 <= i < diff.len() ==> (#[trigger] diff[i]).0 < diff[i].1 < n,
        forall|u: u32, v: u32| #[trigger] diff.contains((u, v)) <==> u < v < n && a.contains((u as int, v as int)) != b.contains(
            (u as int, v as int),
        ),
        spent || forall|x: u32, y: u32|
            #[trigger] diff.contains((x, y)) && walk.last().contains((x as int, y as int)) == a.contains((x as int, y as int))
                ==> violation_count(toggle(walk.last(), (x as int, y as int)), n, k, ell) > mv,
    ensures
        pair_walk(a, b, n, k, ell, mv, walk, found, spent),
{
    assert forall|i: int| 0 <= i < walk.len() - 1 implies #[trigger] toward_step(a, b, walk[i], walk[i + 1], n, k, ell, mv) by {
        assert(relink_step(walk[i], walk[i + 1], n, k, ell, mv, diff));
        let t = choose|t: int|
            0 <= t < diff.len() && walk[i + 1] == toggle(walk[i], ordered(#[trigger] diff[t].0 as int, diff[t].1 as int))
                && violation_count(walk[i + 1], n, k, ell) <= mv;
        let x = diff[t].0;
        let y = diff[t].1;
        assert(diff.contains((x, y)));
        assert(ordered(x as int, y as int) == (x as int, y as int));
        assert(walk[i + 1] == toggle(walk[i], (x as int, y as int)));
    }
    if !spent {
        assert forall|x: int, y: int|
            0 <= x < y < n && a.contains((x, y)) != b.contains((x, y)) && walk.last().contains((x, y)) == a.contains((x, y))
                implies violation_count(#[trigger] toggle(walk.last(), (x, y)), n, k, ell) > mv by {
            let xu = x as u32;
            let yu = y as u32;
            assert(xu as int == x && yu as int == y);
            assert(diff.contains((xu, yu)));
        }
    }
}

impl RelinkSearch {
    /// One relinking round. The seed, when given and the pool has room, is
    /// added to the pool unless its CID (`cid_of`, meant to name the
    /// graph's isomorphism class) is already known. With fewer than two
    /// graphs pooled nothing else happens and the seed is handed back. Else
    /// the unexplored pairs of pool positions are taken in a random order
    /// while the budget lasts: each is marked explored, and, when its two
    /// graphs differ, walked forward and then (budget permitting) backward
    /// over the pairs on which they differ; the best valid graph of the
    /// forward walk joins the pool under the same conditions as the seed.
    /// When every pair listed this round has been explored, the explored
    /// set is cleared. The best graph is the reported graph with the lowest
    /// 4-clique key.
    pub fn search<F: Fn(&AdjacencyMatrix) -> GraphCid>(
        &self,
        n: u32,
        max_iters: u64,
        seed: u64,
        init_graph: Option<AdjacencyMatrix>,
        state: RelinkState,
        cid_of: F,
        cfg: &RelinkConfig,
    ) -> (r: (SearchResult, RelinkState))
        requires
            1 <= n <= 63,
            max_iters <= u64::MAX - 8192,
            init_graph matches Some(g) ==> g.wf() && g.order() == n,
            state.ready(n as int),
            forall|g: &AdjacencyMatrix| g.wf() && g.order() == n ==> #[trigger] cid_of.requires((g,)),
            cfg.polish_max_steps + cfg.polish_tabu_tenure <= u32::MAX,
        ensures
            r.1.ready(n as int),
            all_valid(r.0.discoveries@, n as int, cfg.k as nat, cfg.ell as nat),
            r.0.valid <==> r.0.discoveries@.len() > 0,
            r.0.best_graph matches Some(b) ==> forall|i: int|
                0 <= i < r.0.discoveries@.len() ==> !key_less(
                four_key((#[trigger] r.0.discoveries@[i]).graph@, n as int),
                four_key(b@, n as int),
            ),
            r.0.best_graph matches Some(g) ==> g.wf() && g.order() == n,
            r.0.valid ==> r.0.best_graph is Some && violation_count(
                r.0.best_graph->Some_0@,
                n as int,
                cfg.k as nat,
                cfg.ell as nat,
            ) == 0,
            r.1.pool@.len() >= state.pool@.len(),
            r.1.pool@.len() <= if state.pool@.len() > cfg.pool_capacity {
                state.pool@.len() as int
            } else {
                cfg.pool_capacity as int
            },
            forall|i: int| 0 <= i < state.pool@.len() ==> r.1.pool@[i] == state.pool@[i],
            forall|i: int|
                state.pool@.len() <= i < r.1.pool@.len() ==> (init_graph matches Some(g) && (#[trigger] r.1.pool@[i])@
                    == g@) || violation_count(r.1.pool@[i]@, n as int, cfg.k as nat, cfg.ell as nat) == 0,
            r.1.pool_cids@.len() - state.pool_cids@.len() == r.1.pool@.len() - state.pool@.len(),
            r.1.pool@.len() < 2 ==> !r.0.valid && r.0.iterations_used == 0 && (r.0.best_graph is Some
                <==> init_graph is Some) && (init_graph matches Some(g) ==> r.0.best_graph->Some_0@ == g@),
            r.0.iterations_used <= max_iters + 2 * n * n,
            (init_graph matches Some(g) && state.pool@.len() < cfg.pool_capacity && forall|c: GraphCid|
                cid_of.ensures((&g,), c) ==> !cid_known(state.pool_cids@, c)) ==> r.1.pool@.len() > state.pool@.len()
                && r.1.pool@[state.pool@.len() as int]@ == init_graph->0@,
            state.pool@.len() + (if init_graph is Some {
                1int
            } else {
                0
            }) < 2 ==> r.1.pool@.len() <= state.pool@.len() + (if init_graph is Some {
                1int
            } else {
                0
            }),
            max_iters > 0 && r.0.iterations_used == 0 ==> forall|a: int, b: int|
                0 <= a < b < r.1.pool@.len() && !state.explored_pairs@.contains((a as usize, b as usize)) ==> (
                #[trigger] r.1.pool@[a])@ == (#[trigger] r.1.pool@[b])@,
            exists|m: int, done: Seq<(usize, usize)>, walks: Seq<Seq<Set<(int, int)>>>|
                #[trigger] relink_outcome(state, m, n as int, cfg.k as nat, cfg.ell as nat, cfg.max_violations, max_iters, r.0, r.1, done, walks),
    {
        let k = cfg.k;
        let ell = cfg.ell;
        let mut rng = seeded_rng(seed);
        let mut state = state;
        let ghost start = state;
        let mut returned_seed: Option<AdjacencyMatrix> = None;
        match &init_graph {
            Some(g) => {
                returned_seed = Some(g.copy_of());
                if state.pool.len() < cfg.pool_capacity {
                    let cid = cid_of(g);
                    if !contains_cid(&state.pool_cids, &cid) {
                        state.pool_cids.push(cid);
                        state.pool.push(g.copy_of());
                    }
                }
            },
            None => {},
        }
        assert(state.ready(n as int));
        let ghost seeded = state;
        if state.pool.len() < 2 {
            let res = SearchResult { best_graph: returned_seed, valid: false, iterations_used: 0, discoveries: Vec::new() };
            proof {
                let done: Seq<(usize, usize)> = Seq::empty();
                let walks: Seq<Seq<Set<(int, int)>>> = Seq::empty();
                assert(state.explored_pairs@ =~= start.explored_pairs@ + done);
                assert(walk_steps(walks) == 0);
                assert(relink_outcome(start, state.pool@.len() as int, n as int, k as nat, ell as nat, cfg.max_violations, max_iters, res, state, done, walks));
            }
            return (res, state);
        }
        let pool_len = state.pool.len();
        let mut pairs: Vec<(usize, usize)> = Vec::new();
        let ghost explored0 = state.explored_pairs@;
        let mut i: usize = 0;
        while i < pool_len
            invariant
                i <= pool_len,
                explored0 == state.explored_pairs@,
                forall|t: int| 0 <= t < pairs@.len() ==> (#[trigger] pairs@[t]).0 < pairs@[t].1 < pool_len,
                forall|a: usize, b: usize|
                    a < i && a < b < pool_len && !explored0.contains((a, b)) ==> #[trigger] pairs@.contains((a, b)),
                forall|t: int| 0 <= t < pairs@.len() ==> !explored0.contains(#[trigger] pairs@[t]),
            decreases pool_len - i,
        {
            let mut j: usize = i + 1;
            while j < pool_len
                invariant
                    i < pool_len,
                    i + 1 <= j <= pool_len,
                    explored0 == state.explored_pairs@,
                    forall|t: int| 0 <= t < pairs@.len() ==> (#[trigger] pairs@[t]).0 < pairs@[t].1 < pool_len,
                    forall|a: usize, b: usize|
                        (a < i || (a == i && b < j)) && a < b < pool_len && !explored0.contains((a, b))
                            ==> #[trigger] pairs@.contains((a, b)),
                    forall|t: int| 0 <= t < pairs@.len() ==> !explored0.contains(#[trigger] pairs@[t]),
                decreases pool_len - j,
            {
                let ghost before = pairs@;
                if !contains_pair(&state.explored_pairs, (i, j)) {
                    pairs.push((i, j));
                    proof {
                        assert(pairs@[pairs@.len() - 1] == (i, j));
                        assert forall|a: usize, b: usize|
                            (a < i || (a == i && b < j)) && a < b < pool_len && !explored0.contains((a, b))
                                implies #[trigger] pairs@.contains((a, b)) by {
                            if (a, b) != (i, j) {
                                assert(before.contains((a, b)));
                                let w = choose|w: int| 0 <= w < before.len() && before[w] == (a, b);
                                assert(pairs@[w] == (a, b));
                            }
                        }
                    }
                }
                j = j + 1;
            }
            i = i + 1;
        }
        let ghost listed = pairs@;
        shuffle_items(&mut rng, &mut pairs);
        proof {
            listed.to_multiset_ensures();
            pairs@.to_multiset_ensures();
            assert forall|t: int| 0 <= t < pairs@.len() implies (#[trigger] pairs@[t]).0 < pairs@[t].1 < pool_len
                && !explored0.contains(pairs@[t]) by {
                assert(listed.contains(pairs@[t]));
            }
            assert forall|a: usize, b: usize| a < b < pool_len && !explored0.contains((a, b)) implies #[trigger] pairs@.contains(
                (a, b),
            ) by {
                assert(listed.contains((a, b)));
                assert(listed.to_multiset().count((a, b)) > 0);
            }
        }
        let mut findings = Findings::new();
        let mut iters: u64 = 0;
        let mut p: usize = 0;
        let ghost mut walks: Seq<Seq<Set<(int, int)>>> = Seq::empty();
        assert(state.explored_pairs@ =~= explored0 + pairs@.take(0));
        while p < pairs.len()
            invariant
                p <= pairs@.len(),
                1 <= n <= 63,
                k == cfg.k,
                ell == cfg.ell,
                max_iters <= u64::MAX - 8192,
                iters <= max_iters + 2 * n * n,
                pool_len <= state.pool@.len(),
                forall|t: int| 0 <= t < pairs@.len() ==> (#[trigger] pairs@[t]).0 < pairs@[t].1 < pool_len,
                state.ready(n as int),
                forall|g: &AdjacencyMatrix| g.wf() && g.order() == n ==> #[trigger] cid_of.requires((g,)),
                cfg.polish_max_steps + cfg.polish_tabu_tenure <= u32::MAX,
                findings.inv(n as int, k as nat, ell as nat),
                findings.lowest(n as int),
                findings.best is Some <==> findings.discoveries@.len() > 0,
                seeded.pool@.len() <= state.pool@.len(),
                state.pool@.len() <= if seeded.pool@.len() > cfg.pool_capacity {
                    seeded.pool@.len() as int
                } else {
                    cfg.pool_capacity as int
                },
                forall|t: int| 0 <= t < seeded.pool@.len() ==> state.pool@[t] == seeded.pool@[t],
                forall|t: int|
                    seeded.pool@.len() <= t < state.pool@.len() ==> violation_count(
                        (#[trigger] state.pool@[t])@,
                        n as int,
                        k as nat,
                        ell as nat,
                    ) == 0,
                state.pool_cids@.len() - seeded.pool_cids@.len() == state.pool@.len() - seeded.pool@.len(),
                pool_len == seeded.pool@.len(),
                iters == 0 ==> state.pool@.len() == seeded.pool@.len(),
                iters == 0 ==> forall|t: int|
                    0 <= t < p ==> (#[trigger] state.pool@[pairs@[t].0 as int])@ == state.pool@[pairs@[t].1 as int]@,
                forall|t: int| 0 <= t < pairs@.len() ==> !explored0.contains(#[trigger] pairs@[t]),
                explored0 == start.explored_pairs@,
                state.explored_pairs@ == explored0 + pairs@.take(p as int),
                walks.len() == p,
                walk_steps(walks) <= iters,
                forall|t: int|
                    0 <= t < p && seeded.pool@[pairs@[t].0 as int]@ != seeded.pool@[pairs@[t].1 as int]@ ==> pair_walk(
                        seeded.pool@[pairs@[t].0 as int]@,
                        seeded.pool@[pairs@[t].1 as int]@,
                        n as int,
                        k as nat,
                        ell as nat,
                        cfg.max_violations,
                        #[trigger] walks[t],
                        findings.discoveries@,
                        iters >= max_iters,
                    ),
            ensures
                p == pairs@.len() || iters >= max_iters,
            decreases pairs@.len() - p,
        {
            if iters >= max_iters {
                break;
            }
            let (a_at, b_at) = pairs[p];
            let ghost w0 = walks;
            let ghost d0 = findings.discoveries@;
            let ghost it0 = iters;
            let ghost ga = seeded.pool@[a_at as int]@;
            let ghost gb = seeded.pool@[b_at as int]@;
            let ghost mut nw: Seq<Set<(int, int)>> = seq![ga];
            let ghost mut d_fwd = d0;
            let ghost mut it_fwd = it0;
            state.explored_pairs.push((a_at, b_at));
            proof {
                assert(state.explored_pairs@ =~= explored0 + pairs@.take(p + 1));
            }
            let diff = differing_pairs(&state.pool[a_at], &state.pool[b_at], n);
            assert(n * n <= 3969) by (nonlinear_arith)
                requires
                    n <= 63,
            ;
            assert(2 * diff@.len() <= 2 * n * n) by (nonlinear_arith)
                requires
                    diff@.len() <= n * n,
            ;
            proof {
                if diff@.len() == 0 {
                    state.pool@[a_at as int].lemma_edges_are_pairs();
                    state.pool@[b_at as int].lemma_edges_are_pairs();
                    assert forall|e: (int, int)| state.pool@[a_at as int]@.contains(e) == state.pool@[b_at as int]@.contains(e) by {
                        if is_vertex_pair(n as int, e) {
                            let x = e.0 as u32;
                            let y = e.1 as u32;
                            assert(!diff@.contains((x, y)));
                        }
                    }
                    assert(state.pool@[a_at as int]@ =~= state.pool@[b_at as int]@);
                }
            }
            if diff.len() > 0 {
                let forward = relink_path(&state.pool[a_at], &diff, cfg, &mut findings, &mut iters, max_iters, &mut rng);
                proof {
                    let fw = choose|fw: Seq<Set<(int, int)>>|
                        #[trigger] relink_walk(
                            ga,
                            n as int,
                            k as nat,
                            ell as nat,
                            cfg.max_violations,
                            diff@,
                            fw,
                            findings.discoveries@,
                        ) && fw.len() - 1 <= iters - it0 && (iters >= max_iters || forall|x: u32, y: u32|
                            #[trigger] diff@.contains((x, y)) && fw.last().contains((x as int, y as int)) == ga.contains(
                                (x as int, y as int),
                            ) ==> violation_count(
                                toggle(fw.last(), (x as int, y as int)),
                                n as int,
                                k as nat,
                                ell as nat,
                            ) > cfg.max_violations);
                    d_fwd = findings.discoveries@;
                    it_fwd = iters;
                    lemma_relink_is_pair_walk(ga, gb, n as int, k as nat, ell as nat, cfg.max_violations, diff@, fw, d_fwd, it_fwd >= max_iters);
                    nw = fw;
                }
                if iters < max_iters {
                    let back = reversed(&diff);
                    proof {
                        assert forall|t: int| 0 <= t < back@.len() implies (#[trigger] back@[t]).0 < back@[t].1 < n by {
                            assert(back@[t] == diff@[diff@.len() - 1 - t]);
                        }
                    }
                    let _ = relink_path(&state.pool[b_at], &back, cfg, &mut findings, &mut iters, max_iters, &mut rng);
                }
                match forward {
                    Some(g) => {
                        if state.pool.len() < cfg.pool_capacity {
                            let cid = cid_of(&g);
                            if !contains_cid(&state.pool_cids, &cid) {
                                state.pool_cids.push(cid);
                                state.pool.push(g);
                            }
                        }
                    },
                    None => {},
                }
            }
            proof {
                assert(findings.discoveries@.take(d_fwd.len() as int) == d_fwd);
                assert(d_fwd.take(d0.len() as int) == d0);
                assert(findings.discoveries@.take(d0.len() as int) =~= d_fwd.take(d0.len() as int));
                let w1 = walks.push(nw);
                assert(w1.drop_last() =~= walks);
                assert forall|t: int|
                    0 <= t < p + 1 && seeded.pool@[pairs@[t].0 as int]@ != seeded.pool@[pairs@[t].1 as int]@ implies pair_walk(
                        seeded.pool@[pairs@[t].0 as int]@,
                        seeded.pool@[pairs@[t].1 as int]@,
                        n as int,
                        k as nat,
                        ell as nat,
                        cfg.max_violations,
                        #[trigger] w1[t],
                        findings.discoveries@,
                        iters >= max_iters,
                    ) by {
                    if t < p {
                        assert(w1[t] == w0[t]);
                        lemma_pair_walk_grows(
                            seeded.pool@[pairs@[t].0 as int]@,
                            seeded.pool@[pairs@[t].1 as int]@,
                            n as int,
                            k as nat,
                            ell as nat,
                            cfg.max_violations,
                            w0[t],
                            d0,
                            findings.discoveries@,
                            it0 >= max_iters,
                            iters >= max_iters,
                        );
                    } else {
                        assert(w1[t] == nw);
                        lemma_pair_walk_grows(ga, gb, n as int, k as nat, ell as nat, cfg.max_violations, nw, d_fwd, findings.discoveries@, it_fwd >= max_iters, iters >= max_iters);
                    }
                }
                walks = w1;
            }
            p = p + 1;
        }
        proof {
            if max_iters > 0 && iters == 0 {
                assert forall|a: int, b: int|
                    0 <= a < b < state.pool@.len() && !explored0.contains((a as usize, b as usize)) implies (
                    #[trigger] state.pool@[a])@ == (#[trigger] state.pool@[b])@ by {
                    assert(pairs@.contains((a as usize, b as usize)));
                    let t = choose|t: int| 0 <= t < pairs@.len() && pairs@[t] == (a as usize, b as usize);
                    assert(state.pool@[pairs@[t].0 as int]@ == state.pool@[pairs@[t].1 as int]@);
                }
            }
        }
        let mut all_explored = true;
        let mut q: usize = 0;
        while q < pairs.len()
            invariant
                q <= pairs@.len(),
            decreases pairs@.len() - q,
        {
            if !contains_pair(&state.explored_pairs, pairs[q]) {
                all_explored = false;
            }
            q = q + 1;
        }
        if all_explored {
            state.explored_pairs = Vec::new();
        }
        let Findings { discoveries, best, .. } = findings;
        let valid = best.is_some();
        let res = SearchResult { best_graph: best, valid, iterations_used: iters, discoveries };
        proof {
            let done = pairs@.take(p as int);
            if iters < max_iters {
                assert(done =~= pairs@);
            }
            assert forall|t: int| 0 <= t < done.len() implies (#[trigger] done[t]).0 < done[t].1 < pool_len
                && !start.explored_pairs@.contains(done[t]) by {
                assert(done[t] == pairs@[t]);
            }
            assert forall|t: int|
                0 <= t < done.len() && state.pool@[done[t].0 as int]@ != state.pool@[done[t].1 as int]@ implies pair_walk(
                    state.pool@[done[t].0 as int]@,
                    state.pool@[done[t].1 as int]@,
                    n as int,
                    k as nat,
                    ell as nat,
                    cfg.max_violations,
                    #[trigger] walks[t],
                    res.discoveries@,
                    res.iterations_used >= max_iters,
                ) by {
                assert(done[t] == pairs@[t]);
                assert(state.pool@[pairs@[t].0 as int] == seeded.pool@[pairs@[t].0 as int]);
                assert(state.pool@[pairs@[t].1 as int] == seeded.pool@[pairs@[t].1 as int]);
            }
            assert(relink_outcome(start, pool_len as int, n as int, k as nat, ell as nat, cfg.max_violations, max_iters, res, state, done, walks));
        }
        let out = (res, state);
        proof {
            assert(relink_outcome(start, pool_len as int, n as int, cfg.k as nat, cfg.ell as nat, cfg.max_violations, max_iters, out.0, out.1, pairs@.take(p as int), walks));
        }
        out
    }
}

} // verus!
