//! Score bookkeeping for polishing valid graphs: absolute 4- and 3-clique
//! counts of a graph and its complement, updated by deltas, and the
//! golf-style score tuple they give.

use vstd::prelude::*;

use crate::adjacency::{AdjacencyMatrix, lemma_consecutive_even, lemma_row_start_closed, pair_index, row_start};
use crate::adjacency::ordered;
use crate::clique::{NeighborSet, blue_delta, cliques_of, count_cliques, graph_cliques, graph_masks, lemma_small_clique_totals, lemma_through_bounds, red_delta, violation_delta};
use crate::exchange::{lemma_flip_changes_cliques, lemma_flip_changes_complement_cliques};
use crate::histogram::complement_edges;
use crate::random::{choose_pair, toggle};
use rand::rngs::SmallRng;
use crate::search::{RawDiscovery, keep_new_discoveries, kept_new, same_discovery};
use crate::types::GraphCid;
use crate::tree2::BeamEntry;

verus! {

/// Score of a valid graph: `(max_4c, min_4c, max_3c, min_3c)`; lower is
/// better, compared lexicographically.
pub type ValidScore = (u64, u64, u64, u64);

/// Absolute clique counts of a graph (red) and its complement (blue).
pub struct ScoreState {
    pub red_4: u64,
    pub blue_4: u64,
    pub red_3: u64,
    pub blue_3: u64,
}

/// The larger and the smaller of two counts.
pub open spec fn max_min(a: u64, b: u64) -> (u64, u64) {
    if a >= b {
        (a, b)
    } else {
        (b, a)
    }
}

/// The score tuple of the four counts.
pub open spec fn score_of(r4: u64, b4: u64, r3: u64, b3: u64) -> ValidScore {
    (max_min(r4, b4).0, max_min(r4, b4).1, max_min(r3, b3).0, max_min(r3, b3).1)
}

/// `x + d`, clamped below at zero.
pub open spec fn bumped(x: u64, d: i64) -> u64 {
    if (x as i64) + d >= 0 {
        ((x as i64) + d) as u64
    } else {
        0
    }
}

/// `(x as i64) + d` does not overflow.
pub open spec fn bump_fits(x: u64, d: i64) -> bool {
    i64::MIN <= (x as i64) + d <= i64::MAX
}

fn max_min_exec(a: u64, b: u64) -> (r: (u64, u64))
    ensures
        r == max_min(a, b),
{
    if a >= b {
        (a, b)
    } else {
        (b, a)
    }
}

fn bump(x: u64, d: i64) -> (r: u64)
    requires
        bump_fits(x, d),
    ensures
        r == bumped(x, d),
{
    let s = x as i64 + d;
    if s >= 0 {
        s as u64
    } else {
        0
    }
}

impl ScoreState {
    /// The counts of 4- and 3-cliques of the graph and of its complement on
    /// the vertices `0..n`.
    pub fn from_counts(adj_nbrs: &NeighborSet, comp_nbrs: &NeighborSet, n: u32) -> (s: Self)
        requires
            adj_nbrs.closed_below(n as int),
            comp_nbrs.closed_below(n as int),
            n <= 63,
        ensures
            s.red_4 == cliques_of(adj_nbrs.masks@, 4, n as int),
            s.blue_4 == cliques_of(comp_nbrs.masks@, 4, n as int),
            s.red_3 == cliques_of(adj_nbrs.masks@, 3, n as int),
            s.blue_3 == cliques_of(comp_nbrs.masks@, 3, n as int),
    {
        Self {
            red_4: count_cliques(adj_nbrs, 4, n),
            blue_4: count_cliques(comp_nbrs, 4, n),
            red_3: count_cliques(adj_nbrs, 3, n),
            blue_3: count_cliques(comp_nbrs, 3, n),
        }
    }

    /// `(max_4c, min_4c, max_3c, min_3c)`.
    pub fn score_tuple(&self) -> (r: ValidScore)
        ensures
            r == score_of(self.red_4, self.blue_4, self.red_3, self.blue_3),
    {
        let a = max_min_exec(self.red_4, self.blue_4);
        let b = max_min_exec(self.red_3, self.blue_3);
        (a.0, a.1, b.0, b.1)
    }

    /// Add the deltas to the counts, clamping at zero.
    pub fn apply_delta(&mut self, d_red_4: i64, d_blue_4: i64, d_red_3: i64, d_blue_3: i64)
        requires
            bump_fits(old(self).red_4, d_red_4),
            bump_fits(old(self).blue_4, d_blue_4),
            bump_fits(old(self).red_3, d_red_3),
            bump_fits(old(self).blue_3, d_blue_3),
        ensures
            final(self).red_4 == bumped(old(self).red_4, d_red_4),
            final(self).blue_4 == bumped(old(self).blue_4, d_blue_4),
            final(self).red_3 == bumped(old(self).red_3, d_red_3),
            final(self).blue_3 == bumped(old(self).blue_3, d_blue_3),
    {
        self.red_4 = bump(self.red_4, d_red_4);
        self.blue_4 = bump(self.blue_4, d_blue_4);
        self.red_3 = bump(self.red_3, d_red_3);
        self.blue_3 = bump(self.blue_3, d_blue_3);
    }

    /// The score tuple the counts would have after the deltas.
    pub fn predicted(&self, d_red_4: i64, d_blue_4: i64, d_red_3: i64, d_blue_3: i64) -> (r: ValidScore)
        requires
            bump_fits(self.red_4, d_red_4),
            bump_fits(self.blue_4, d_blue_4),
            bump_fits(self.red_3, d_red_3),
            bump_fits(self.blue_3, d_blue_3),
        ensures
            r == score_of(
                bumped(self.red_4, d_red_4),
                bumped(self.blue_4, d_blue_4),
                bumped(self.red_3, d_red_3),
                bumped(self.blue_3, d_blue_3),
            ),
    {
        let r4 = bump(self.red_4, d_red_4);
        let b4 = bump(self.blue_4, d_blue_4);
        let r3 = bump(self.red_3, d_red_3);
        let b3 = bump(self.blue_3, d_blue_3);
        let a = max_min_exec(r4, b4);
        let b = max_min_exec(r3, b3);
        (a.0, a.1, b.0, b.1)
    }
}

/// The tuple `predicted` gives for some deltas is the tuple `score_tuple`
/// gives once `apply_delta` has applied them.
pub proof fn lemma_predicted_matches_applied(
    before: ScoreState,
    after: ScoreState,
    d_red_4: i64,
    d_blue_4: i64,
    d_red_3: i64,
    d_blue_3: i64,
)
    requires
        after.red_4 == bumped(before.red_4, d_red_4),
        after.blue_4 == bumped(before.blue_4, d_blue_4),
        after.red_3 == bumped(before.red_3, d_red_3),
        after.blue_3 == bumped(before.blue_3, d_blue_3),
    ensures
        score_of(after.red_4, after.blue_4, after.red_3, after.blue_3) == score_of(
            bumped(before.red_4, d_red_4),
            bumped(before.blue_4, d_blue_4),
            bumped(before.red_3, d_red_3),
            bumped(before.blue_3, d_blue_3),
        ),
{
}

/// The score tuple does not depend on which colour is called red.
pub proof fn lemma_score_colour_symmetric(r4: u64, b4: u64, r3: u64, b3: u64)
    ensures
        score_of(r4, b4, r3, b3) == score_of(b4, r4, b3, r3),
{
}

/// Flat index of the pair `{u, v}` among the pairs of `0..n` in row-major
/// order.
pub fn edge_index(u: u32, v: u32, n: u32) -> (r: usize)
    requires
        u != v,
        u < n,
        v < n,
        n * n <= u32::MAX,
    ensures
        r == if u < v {
            pair_index(n as int, u as int, v as int)
        } else {
            pair_index(n as int, v as int, u as int)
        },
{
    let (u, v) = if u < v {
        (u, v)
    } else {
        (v, u)
    };
    proof {
        lemma_row_start_closed(n as int, u as int);
        lemma_consecutive_even(u as int);
    }
    assert(u * n <= n * n && u * (u + 1) <= u * n && u * n + n <= n * n) by (nonlinear_arith)
        requires
            u < v < n,
    ;
    assert(u * (u + 1) == 2 * (u * (u + 1) / 2));
    assert(2 * row_start(n as int, u as int) == 2 * u * n - u * (u + 1));
    assert(2 * u * n == 2 * (u * n)) by (nonlinear_arith);
    (u * n - u * (u + 1) / 2 + (v - u - 1)) as usize
}

/// The score tuple of a graph on `n` vertices: its 4- and 3-clique counts
/// against its complement's.
pub fn score_valid_graph(graph: &AdjacencyMatrix, n: u32) -> (r: ValidScore)
    requires
        graph.wf(),
        graph.order() == n,
        n <= 63,
    ensures
        r == score_of(
            graph_cliques(graph@, n as int, 4) as u64,
            graph_cliques(complement_edges(graph@, n as int), n as int, 4) as u64,
            graph_cliques(graph@, n as int, 3) as u64,
            graph_cliques(complement_edges(graph@, n as int), n as int, 3) as u64,
        ),
{
    let adj_nbrs = NeighborSet::from_adj(graph);
    let comp = graph.complement();
    let comp_nbrs = NeighborSet::from_adj(&comp);
    ScoreState::from_counts(&adj_nbrs, &comp_nbrs, n).score_tuple()
}

/// Lexicographic `a < b` on score tuples.
pub open spec fn score_less(a: ValidScore, b: ValidScore) -> bool {
    a.0 < b.0 || (a.0 == b.0 && (a.1 < b.1 || (a.1 == b.1 && (a.2 < b.2 || (a.2 == b.2 && a.3 < b.3)))))
}

fn score_lt(a: ValidScore, b: ValidScore) -> (r: bool)
    ensures
        r == score_less(a, b),
{
    a.0 < b.0 || (a.0 == b.0 && (a.1 < b.1 || (a.1 == b.1 && (a.2 < b.2 || (a.2 == b.2 && a.3 < b.3)))))
}

/// Flipping the pair `{u, v}` of the graph `edges` on `0..n` leaves its
/// violation count unchanged: the change in `k`-cliques and the change in
/// the complement's `ell`-cliques cancel.
pub open spec fn violation_neutral(edges: Set<(int, int)>, n: int, k: nat, ell: nat, u: int, v: int) -> bool {
    let a = graph_masks(edges, n);
    let c = graph_masks(complement_edges(edges, n), n);
    red_delta(a, k, u, v) + blue_delta(a, c, ell, u, v) == 0
}

/// The number of `k`-cliques of the graph on `0..n` plus the number of
/// `ell`-cliques of its complement.
pub open spec fn violation_count(edges: Set<(int, int)>, n: int, k: nat, ell: nat) -> nat {
    graph_cliques(edges, n, k) + graph_cliques(complement_edges(edges, n), n, ell)
}

/// The violation count of a graph: its `k`-cliques plus its complement's
/// `ell`-cliques.
pub fn count_violations(graph: &AdjacencyMatrix, k: u32, ell: u32) -> (r: u64)
    requires
        graph.wf(),
        graph.order() <= 63,
    ensures
        r == violation_count(graph@, graph.order() as int, k as nat, ell as nat),
{
    let n = graph.n();
    let adj = NeighborSet::from_adj(graph);
    let comp = graph.complement();
    let comp_nbrs = NeighborSet::from_adj(&comp);
    proof {
        crate::clique::lemma_cliques_of_small(adj.masks@, k as nat, n as int);
        crate::clique::lemma_cliques_of_small(comp_nbrs.masks@, ell as nat, n as int);
    }
    let kc = count_cliques(&adj, k, n);
    let ei = count_cliques(&comp_nbrs, ell, n);
    kc + ei
}

/// `(max, min)` of the graph's and its complement's 4-clique counts.
pub open spec fn four_key(edges: Set<(int, int)>, n: int) -> (u64, u64) {
    max_min(graph_cliques(edges, n, 4) as u64, graph_cliques(complement_edges(edges, n), n, 4) as u64)
}

/// Lexicographic `a < b` on pairs.
pub open spec fn key_less(a: (u64, u64), b: (u64, u64)) -> bool {
    a.0 < b.0 || (a.0 == b.0 && a.1 < b.1)
}

/// `(max, min)` of a graph's and its complement's 4-clique counts.
pub fn four_clique_key(graph: &AdjacencyMatrix) -> (r: (u64, u64))
    requires
        graph.wf(),
        graph.order() <= 63,
    ensures
        r == four_key(graph@, graph.order() as int),
{
    let s = score_valid_graph(graph, graph.n());
    (s.0, s.1)
}

/// Lexicographic `a < b` on pairs.
pub fn key_lt(a: (u64, u64), b: (u64, u64)) -> (r: bool)
    ensures
        r == key_less(a, b),
{
    a.0 < b.0 || (a.0 == b.0 && a.1 < b.1)
}

/// Every discovery is a valid graph on `n` vertices.
pub open spec fn all_valid(d: Seq<RawDiscovery>, n: int, k: nat, ell: nat) -> bool {
    forall|i: int|
        0 <= i < d.len() ==> (#[trigger] d[i]).graph.wf() && d[i].graph.order() == n && violation_count(
            d[i].graph@,
            n,
            k,
            ell,
        ) == 0
}

/// What `keep_new_discoveries` keeps of valid discoveries is valid.
pub proof fn lemma_kept_valid<F: Fn(&AdjacencyMatrix) -> GraphCid>(
    cid_of: F,
    found: Seq<RawDiscovery>,
    known0: Seq<GraphCid>,
    known1: Seq<GraphCid>,
    r: Seq<RawDiscovery>,
    c: Seq<GraphCid>,
    pos: Seq<int>,
    n: int,
    k: nat,
    ell: nat,
)
    requires
        all_valid(found, n, k, ell),
        kept_new(cid_of, found, known0, known1, r, c, pos),
    ensures
        all_valid(r, n, k, ell),
{
    assert forall|j: int| 0 <= j < r.len() implies (#[trigger] r[j]).graph.wf() && r[j].graph.order() == n
        && violation_count(r[j].graph@, n, k, ell) == 0 by {
        assert(same_discovery(r[j], found[pos[j]]));
    }
}

/// What a search has found so far: the valid graphs it reported, the best
/// of them with its `(max, min)` 4-clique counts, and how many polish walks
/// it has run.
pub struct Findings {
    pub discoveries: Vec<RawDiscovery>,
    pub best: Option<AdjacencyMatrix>,
    pub best_key: (u64, u64),
    pub polish_calls: u32,
}

impl Findings {
    /// Every discovery is a valid graph on `n` vertices, and so is the
    /// best one, whose key is recorded.
    pub open spec fn inv(&self, n: int, k: nat, ell: nat) -> bool {
        &&& all_valid(self.discoveries@, n, k, ell)
        &&& self.best matches Some(g) ==> g.wf() && g.order() == n && violation_count(g@, n, k, ell) == 0
            && self.best_key == four_key(g@, n)
    }

    /// The best graph has the lowest `(max, min)` 4-clique key of all
    /// the discoveries.
    pub open spec fn lowest(&self, n: int) -> bool {
        forall|i: int|
            0 <= i < self.discoveries@.len() ==> self.best is Some && !key_less(
                four_key((#[trigger] self.discoveries@[i]).graph@, n),
                self.best_key,
            )
    }

    /// Nothing found yet.
    pub fn new() -> (r: Self)
        ensures
            r.discoveries@.len() == 0,
            r.best is None,
            r.polish_calls == 0,
            forall|n: int, k: nat, ell: nat| #[trigger] r.inv(n, k, ell),
    {
        Findings { discoveries: Vec::new(), best: None, best_key: (0, 0), polish_calls: 0 }
    }

    /// Record a valid graph found at `iteration`: report it, make it the
    /// best if its 4-clique key is lower than the best's, and, while fewer
    /// than `max_polish` walks have run, polish it, reporting the walk and
    /// keeping the polished graph when its key is lower still.
    pub fn report_valid(
        &mut self,
        graph: &AdjacencyMatrix,
        k: u32,
        ell: u32,
        polish_max_steps: u32,
        polish_tabu_tenure: u32,
        max_polish: u32,
        iteration: u64,
    )
        requires
            graph.wf(),
            1 <= graph.order() <= 63,
            old(self).inv(graph.order() as int, k as nat, ell as nat),
            violation_count(graph@, graph.order() as int, k as nat, ell as nat) == 0,
            polish_max_steps + polish_tabu_tenure <= u32::MAX,
        ensures
            final(self).inv(graph.order() as int, k as nat, ell as nat),
            final(self).discoveries@.len() > old(self).discoveries@.len(),
            final(self).discoveries@.take(old(self).discoveries@.len() as int) == old(self).discoveries@,
            final(self).discoveries@[old(self).discoveries@.len() as int].graph@ == graph@,
            final(self).discoveries@[old(self).discoveries@.len() as int].iteration == iteration,
            final(self).best is Some,
            !key_less(four_key(graph@, graph.order() as int), final(self).best_key),
            old(self).best is Some ==> !key_less(old(self).best_key, final(self).best_key),
            old(self).lowest(graph.order() as int) ==> final(self).lowest(graph.order() as int),
            final(self).polish_calls == if polish_max_steps > 0 && old(self).polish_calls < max_polish {
                old(self).polish_calls + 1
            } else {
                old(self).polish_calls as int
            },
    {
        let ghost n = graph.order() as int;
        let key = four_clique_key(graph);
        let ghost before = self.discoveries@;
        self.discoveries.push(RawDiscovery { graph: graph.copy_of(), iteration });
        proof {
            let d = self.discoveries@;
            assert forall|j: int| 0 <= j < d.len() implies (#[trigger] d[j]).graph.wf() && d[j].graph.order() == n
                && violation_count(d[j].graph@, n, k as nat, ell as nat) == 0 by {
                if j < before.len() {
                    assert(d[j] == before[j]);
                }
            }
            assert(d.take(before.len() as int) =~= before);
        }
        let better = match &self.best {
            Some(_) => key_lt(key, self.best_key),
            None => true,
        };
        if better {
            self.best = Some(graph.copy_of());
            self.best_key = key;
        }
        if polish_max_steps > 0 && self.polish_calls < max_polish {
            self.polish_calls = self.polish_calls + 1;
            let ghost before_polish = self.discoveries@;
            let polished = polish_walk(
                graph,
                k,
                ell,
                polish_max_steps,
                polish_tabu_tenure,
                &mut self.discoveries,
                iteration,
            );
            proof {
                let d = self.discoveries@;
                assert forall|j: int| 0 <= j < d.len() implies (#[trigger] d[j]).graph.wf() && d[j].graph.order()
                    == n && violation_count(d[j].graph@, n, k as nat, ell as nat) == 0 by {
                    if j < before_polish.len() {
                        assert(d[j] == before_polish[j]);
                    }
                }
                assert(d[before.len() as int] == before_polish[before.len() as int]);
                assert(d.take(before.len() as int) =~= before_polish.take(before.len() as int));
            }
            let ghost bk = self.best_key;
            if let Some(p) = polished {
                let pkey = four_clique_key(&p);
                if key_lt(pkey, self.best_key) {
                    self.best = Some(p);
                    self.best_key = pkey;
                }
            }
            proof {
                if old(self).lowest(n) {
                    let d = self.discoveries@;
                    let b0 = before.len() as int;
                    assert forall|i: int| 0 <= i < d.len() implies self.best is Some && !key_less(
                        four_key((#[trigger] d[i]).graph@, n),
                        self.best_key,
                    ) by {
                        if i < b0 {
                            assert(d[i] == before[i]);
                            assert(!key_less(four_key(before[i].graph@, n), old(self).best_key));
                        } else if i == b0 {
                            assert(d[i].graph@ == graph@);
                        } else {
                            if polished is Some {
                                let p = polished->Some_0;
                                assert(!score_less(valid_score(d[i].graph@, n), valid_score(p@, n)));
                            } else {
                                assert(!score_less(valid_score(d[i].graph@, n), valid_score(graph@, n)));
                            }
                        }
                    }
                }
            }
        } else {
            proof {
                if old(self).lowest(n) {
                    let d = self.discoveries@;
                    let b0 = before.len() as int;
                    assert forall|i: int| 0 <= i < d.len() implies self.best is Some && !key_less(
                        four_key((#[trigger] d[i]).graph@, n),
                        self.best_key,
                    ) by {
                        if i < b0 {
                            assert(d[i] == before[i]);
                            assert(!key_less(four_key(before[i].graph@, n), old(self).best_key));
                        }
                    }
                }
            }
        }
    }
}

/// A violation-neutral flip leaves the violation count unchanged.
pub proof fn lemma_neutral_flip_keeps_violations(edges: Set<(int, int)>, n: int, k: nat, ell: nat, u: int, v: int)
    requires
        0 <= u < v < n,
        n <= 64,
        violation_neutral(edges, n, k, ell, u, v),
    ensures
        violation_count(toggle(edges, ordered(u, v)), n, k, ell) == violation_count(edges, n, k, ell),
{
    lemma_flip_changes_cliques(edges, n, k, u, v);
    lemma_flip_changes_complement_cliques(edges, n, ell, u, v);
}

/// The graph before discovery `i` of a walk: the start graph for the
/// first, else the discovery before it.
pub open spec fn walk_prev(start: Set<(int, int)>, d: Seq<RawDiscovery>, i: int) -> Set<(int, int)> {
    if i == 0 {
        start
    } else {
        d[i - 1].graph@
    }
}

/// The graph of discovery `i` follows from the one before it by a
/// violation-neutral flip.
pub open spec fn walk_step(start: Set<(int, int)>, d: Seq<RawDiscovery>, i: int, n: int, k: nat, ell: nat) -> bool {
    exists|u: int, v: int|
        0 <= u < v < n && #[trigger] violation_neutral(walk_prev(start, d, i), n, k, ell, u, v) && d[i].graph@
            == toggle(walk_prev(start, d, i), ordered(u, v))
}

/// A candidate move: the pair, its predicted score and its four deltas.
pub type Move = (u32, u32, ValidScore, i64, i64, i64, i64);

/// The move is a neutral flip of the current graph, carrying its exact
/// 4- and 3-clique deltas, each small.
pub open spec fn good_move(m: Move, e: BeamEntry, n: int, k: nat, ell: nat) -> bool {
    &&& m.0 < m.1 < n
    &&& violation_neutral(e.graph@, n, k, ell, m.0 as int, m.1 as int)
    &&& -4096 <= m.3 <= 4096
    &&& -4096 <= m.4 <= 4096
    &&& -4096 <= m.5 <= 4096
    &&& -4096 <= m.6 <= 4096
    &&& m.3 == red_delta(e.adj_nbrs.masks@, 4, m.0 as int, m.1 as int)
    &&& m.4 == blue_delta(e.adj_nbrs.masks@, e.comp_nbrs.masks@, 4, m.0 as int, m.1 as int)
    &&& m.5 == red_delta(e.adj_nbrs.masks@, 3, m.0 as int, m.1 as int)
    &&& m.6 == blue_delta(e.adj_nbrs.masks@, e.comp_nbrs.masks@, 3, m.0 as int, m.1 as int)
}

/// The counts tracked while polishing stay small.
pub open spec fn score_small(s: ScoreState, bound: int) -> bool {
    s.red_4 <= bound && s.blue_4 <= bound && s.red_3 <= bound && s.blue_3 <= bound
}

/// The tracked counts are the 4- and 3-clique counts of the graph on
/// `0..n` and of its complement.
pub open spec fn tracks(s: ScoreState, edges: Set<(int, int)>, n: int) -> bool {
    &&& s.red_4 == graph_cliques(edges, n, 4)
    &&& s.blue_4 == graph_cliques(complement_edges(edges, n), n, 4)
    &&& s.red_3 == graph_cliques(edges, n, 3)
    &&& s.blue_3 == graph_cliques(complement_edges(edges, n), n, 3)
}

/// Counts that track a graph give its score, and the score a flip is
/// predicted to give is the score of the flipped graph.
proof fn lemma_tracked_flip(e: BeamEntry, s: ScoreState, u: int, v: int)
    requires
        e.wf(),
        0 <= u < v < e.graph.order(),
        tracks(s, e.graph@, e.graph.order() as int),
        score_small(s, 17182720),
        -4096 <= red_delta(e.adj_nbrs.masks@, 4, u, v) <= 4096,
        -4096 <= blue_delta(e.adj_nbrs.masks@, e.comp_nbrs.masks@, 4, u, v) <= 4096,
        -4096 <= red_delta(e.adj_nbrs.masks@, 3, u, v) <= 4096,
        -4096 <= blue_delta(e.adj_nbrs.masks@, e.comp_nbrs.masks@, 3, u, v) <= 4096,
    ensures
        valid_score(e.graph@, e.graph.order() as int) == score_of(s.red_4, s.blue_4, s.red_3, s.blue_3),
        neutral_score(e, s, u, v) == valid_score(toggle(e.graph@, ordered(u, v)), e.graph.order() as int),
        tracks(
            ScoreState {
                red_4: bumped(s.red_4, red_delta(e.adj_nbrs.masks@, 4, u, v) as i64),
                blue_4: bumped(s.blue_4, blue_delta(e.adj_nbrs.masks@, e.comp_nbrs.masks@, 4, u, v) as i64),
                red_3: bumped(s.red_3, red_delta(e.adj_nbrs.masks@, 3, u, v) as i64),
                blue_3: bumped(s.blue_3, blue_delta(e.adj_nbrs.masks@, e.comp_nbrs.masks@, 3, u, v) as i64),
            },
            toggle(e.graph@, ordered(u, v)),
            e.graph.order() as int,
        ),
{
    let n = e.graph.order() as int;
    let g = e.graph@;
    lemma_flip_changes_cliques(g, n, 4, u, v);
    lemma_flip_changes_cliques(g, n, 3, u, v);
    lemma_flip_changes_complement_cliques(g, n, 4, u, v);
    lemma_flip_changes_complement_cliques(g, n, 3, u, v);
}

/// The graph the walk stands on: the last discovery after `base`, or the
/// start graph when there is none.
pub open spec fn walk_end(start: Set<(int, int)>, d: Seq<RawDiscovery>, base: int) -> Set<(int, int)> {
    if d.len() <= base {
        start
    } else {
        d.last().graph@
    }
}

/// The discoveries from position `base` on form a walk from `start`: each
/// is a well-formed graph on `n` vertices tagged with `iteration`, one
/// violation-neutral flip away from the one before it.
#[verifier::opaque]
pub open spec fn is_walk(
    start: Set<(int, int)>,
    d: Seq<RawDiscovery>,
    base: int,
    n: int,
    k: nat,
    ell: nat,
    iteration: u64,
) -> bool {
    forall|i: int|
        base <= i < d.len() ==> {
            let e = #[trigger] d[i];
            &&& e.graph.wf()
            &&& e.graph.order() == n
            &&& e.iteration == iteration
            &&& walk_step(start, d.subrange(base, d.len() as int), i - base, n, k, ell)
        }
}

/// Step `j` of a walk, and every step before it, has the violation count
/// of the start.
proof fn lemma_walk_prefix_keeps_violations(
    start: Set<(int, int)>,
    sub: Seq<RawDiscovery>,
    j: int,
    n: int,
    k: nat,
    ell: nat,
)
    requires
        0 <= j < sub.len(),
        n <= 64,
        forall|i: int| 0 <= i <= j ==> #[trigger] walk_step(start, sub, i, n, k, ell),
    ensures
        violation_count(sub[j].graph@, n, k, ell) == violation_count(start, n, k, ell),
    decreases j,
{
    assert(walk_step(start, sub, j, n, k, ell));
    let prev = walk_prev(start, sub, j);
    let (u, v) = choose|u: int, v: int|
        0 <= u < v < n && #[trigger] violation_neutral(prev, n, k, ell, u, v) && sub[j].graph@ == toggle(
            prev,
            ordered(u, v),
        );
    lemma_neutral_flip_keeps_violations(prev, n, k, ell, u, v);
    if j > 0 {
        lemma_walk_prefix_keeps_violations(start, sub, j - 1, n, k, ell);
    }
}

/// Every graph of a walk has the violation count of the start: a walk of
/// violation-neutral flips from a valid graph visits only valid graphs.
pub proof fn lemma_walk_keeps_violations(
    start: Set<(int, int)>,
    d: Seq<RawDiscovery>,
    base: int,
    n: int,
    k: nat,
    ell: nat,
    iteration: u64,
)
    requires
        0 <= base <= d.len(),
        n <= 64,
        is_walk(start, d, base, n, k, ell, iteration),
    ensures
        forall|i: int|
            base <= i < d.len() ==> violation_count(#[trigger] d[i].graph@, n, k, ell) == violation_count(
                start,
                n,
                k,
                ell,
            ),
{
    reveal(is_walk);
    let sub = d.subrange(base, d.len() as int);
    assert forall|i: int| 0 <= i < sub.len() implies #[trigger] walk_step(start, sub, i, n, k, ell) by {
        assert(d[i + base] == sub[i]);
    }
    assert forall|i: int| base <= i < d.len() implies violation_count(#[trigger] d[i].graph@, n, k, ell)
        == violation_count(start, n, k, ell) by {
        lemma_walk_prefix_keeps_violations(start, sub, i - base, n, k, ell);
        assert(sub[i - base] == d[i]);
    }
}

/// Appending a graph one violation-neutral flip away from the end of a walk
/// gives a longer walk, and leaves what came before `base` alone.
#[verifier::rlimit(40)]
proof fn lemma_walk_extends(
    start: Set<(int, int)>,
    d: Seq<RawDiscovery>,
    x: RawDiscovery,
    base: int,
    n: int,
    k: nat,
    ell: nat,
    iteration: u64,
    u: int,
    v: int,
)
    requires
        0 <= base <= d.len(),
        is_walk(start, d, base, n, k, ell, iteration),
        0 <= u < v < n,
        violation_neutral(walk_end(start, d, base), n, k, ell, u, v),
        x.graph.wf(),
        x.graph.order() == n,
        x.iteration == iteration,
        x.graph@ == toggle(walk_end(start, d, base), ordered(u, v)),
    ensures
        is_walk(start, d.push(x), base, n, k, ell, iteration),
        d.push(x).take(base) == d.take(base),
        walk_end(start, d.push(x), base) == x.graph@,
{
    reveal(is_walk);
    let dn = d.push(x);
    let sub = dn.subrange(base, dn.len() as int);
    let old_sub = d.subrange(base, d.len() as int);
    let last = dn.len() - 1 - base;
    assert(sub[last] == x);
    if last > 0 {
        assert(sub[last - 1] == d.last());
    }
    lemma_step_witness(start, sub, last, n, k, ell, u, v);
    assert forall|i: int| base <= i < dn.len() implies {
        let e = #[trigger] dn[i];
        &&& e.graph.wf()
        &&& e.graph.order() == n
        &&& e.iteration == iteration
        &&& walk_step(start, sub, i - base, n, k, ell)
    } by {
        if i < dn.len() - 1 {
            assert(dn[i] == d[i]);
            let j = i - base;
            assert(walk_step(start, old_sub, j, n, k, ell));
            let prev = walk_prev(start, old_sub, j);
            let (a, b) = choose|a: int, b: int|
                0 <= a < b < n && #[trigger] violation_neutral(prev, n, k, ell, a, b) && old_sub[j].graph@
                    == toggle(prev, ordered(a, b));
            assert(sub[j] == old_sub[j]);
            if j > 0 {
                assert(sub[j - 1] == old_sub[j - 1]);
            }
            lemma_step_witness(start, sub, j, n, k, ell, a, b);
        }
    }
    assert(dn.take(base) =~= d.take(base));
}

/// A violation-neutral flip `{u, v}` that leads from the graph before
/// discovery `i` to discovery `i` makes step `i` a walk step.
proof fn lemma_step_witness(start: Set<(int, int)>, s: Seq<RawDiscovery>, i: int, n: int, k: nat, ell: nat, u: int, v: int)
    requires
        0 <= u < v < n,
        violation_neutral(walk_prev(start, s, i), n, k, ell, u, v),
        s[i].graph@ == toggle(walk_prev(start, s, i), ordered(u, v)),
    ensures
        walk_step(start, s, i, n, k, ell),
{
}

/// The score a flip of `{u, v}` is predicted to give, from the tracked
/// counts and the flip's 4- and 3-clique deltas.
pub open spec fn neutral_score(e: BeamEntry, score: ScoreState, u: int, v: int) -> ValidScore {
    let a = e.adj_nbrs.masks@;
    let c = e.comp_nbrs.masks@;
    score_of(
        bumped(score.red_4, red_delta(a, 4, u, v) as i64),
        bumped(score.blue_4, blue_delta(a, c, 4, u, v) as i64),
        bumped(score.red_3, red_delta(a, 3, u, v) as i64),
        bumped(score.blue_3, blue_delta(a, c, 3, u, v) as i64),
    )
}

/// `{u, v}` is a violation-neutral flip of the entry's graph whose pair is
/// not tabu at `step`.
pub open spec fn free_neutral(e: BeamEntry, k: nat, ell: nat, tabu_until: Seq<u32>, u: int, v: int, step: u64) -> bool {
    &&& 0 <= u < v < e.graph.order()
    &&& violation_neutral(e.graph@, e.graph.order() as int, k, ell, u, v)
    &&& tabu_until[pair_index(e.graph.order() as int, u, v)] <= step
}

/// `{u, v}` is a violation-neutral flip of the entry's graph predicted to
/// score below `best`.
pub open spec fn aspiring_neutral(e: BeamEntry, score: ScoreState, k: nat, ell: nat, u: int, v: int, best: ValidScore) -> bool {
    &&& 0 <= u < v < e.graph.order()
    &&& violation_neutral(e.graph@, e.graph.order() as int, k, ell, u, v)
    &&& score_less(neutral_score(e, score, u, v), best)
}

/// The move flipping `{u, v}`, with its predicted score and its four
/// deltas, when that flip leaves the violation count unchanged.
fn neutral_move(entry: &BeamEntry, score: &ScoreState, k: u32, ell: u32, u: u32, v: u32) -> (r: Option<Move>)
    requires
        entry.wf(),
        u < v < entry.graph.order(),
        score_small(*score, 17182720),
    ensures
        r is Some <==> violation_neutral(
            entry.graph@,
            entry.graph.order() as int,
            k as nat,
            ell as nat,
            u as int,
            v as int,
        ),
        r matches Some(m) ==> m.0 == u && m.1 == v && good_move(
            m,
            *entry,
            entry.graph.order() as int,
            k as nat,
            ell as nat,
        ),
        r matches Some(m) ==> m.2 == neutral_score(*entry, *score, u as int, v as int),
{
    let ghost a = entry.adj_nbrs.masks@;
    let ghost c = entry.comp_nbrs.masks@;
    proof {
        lemma_through_bounds(a, k as nat, u as int, v as int, true);
        lemma_through_bounds(c, ell as nat, u as int, v as int, true);
        lemma_through_bounds(c, ell as nat, u as int, v as int, false);
        lemma_through_bounds(a, 4, u as int, v as int, true);
        lemma_through_bounds(c, 4, u as int, v as int, true);
        lemma_through_bounds(c, 4, u as int, v as int, false);
        lemma_through_bounds(a, 3, u as int, v as int, true);
        lemma_through_bounds(c, 3, u as int, v as int, true);
        lemma_through_bounds(c, 3, u as int, v as int, false);
    }
    let (dk, de) = violation_delta(&entry.adj_nbrs, &entry.comp_nbrs, k, ell, u, v);
    if dk + de != 0 {
        return None;
    }
    let (d_red_4, d_blue_4) = violation_delta(&entry.adj_nbrs, &entry.comp_nbrs, 4, 4, u, v);
    let (d_red_3, d_blue_3) = violation_delta(&entry.adj_nbrs, &entry.comp_nbrs, 3, 3, u, v);
    let predicted_tuple = score.predicted(d_red_4, d_blue_4, d_red_3, d_blue_3);
    Some((u, v, predicted_tuple, d_red_4, d_blue_4, d_red_3, d_blue_3))
}

/// Over all violation-neutral flips of the current graph: the best one
/// whose pair is not tabu at `step`, and the best one that beats
/// `best_score` (the aspiration move), each by predicted score, the first
/// found winning ties.
fn scan_moves(
    entry: &BeamEntry,
    score: &ScoreState,
    k: u32,
    ell: u32,
    tabu_until: &Vec<u32>,
    step: u64,
    best_score: ValidScore,
) -> (r: (Option<Move>, Option<Move>))
    requires
        entry.wf(),
        score_small(*score, 17182720),
        tabu_until@.len() == entry.graph.order() * (entry.graph.order() - 1) / 2,
    ensures
        r.0 matches Some(m) ==> good_move(m, *entry, entry.graph.order() as int, k as nat, ell as nat),
        r.1 matches Some(m) ==> good_move(m, *entry, entry.graph.order() as int, k as nat, ell as nat)
            && score_less(m.2, best_score),
        r.0 is None <==> !exists|a: int, b: int| #[trigger] free_neutral(*entry, k as nat, ell as nat, tabu_until@, a, b, step),
        r.0 matches Some(m) ==> free_neutral(*entry, k as nat, ell as nat, tabu_until@, m.0 as int, m.1 as int, step)
            && m.2 == neutral_score(*entry, *score, m.0 as int, m.1 as int) && forall|a: int, b: int|
            #[trigger] free_neutral(*entry, k as nat, ell as nat, tabu_until@, a, b, step) ==> !score_less(
                neutral_score(*entry, *score, a, b),
                m.2,
            ),
        r.1 is None <==> !exists|a: int, b: int|
            #[trigger] aspiring_neutral(*entry, *score, k as nat, ell as nat, a, b, best_score),
        r.1 matches Some(m) ==> m.2 == neutral_score(*entry, *score, m.0 as int, m.1 as int) && forall|a: int, b: int|
            #[trigger] aspiring_neutral(*entry, *score, k as nat, ell as nat, a, b, best_score) ==> !score_less(
                neutral_score(*entry, *score, a, b),
                m.2,
            ),
{
    let n = entry.graph.n();
    let ghost nn = n as int;
    let mut best_move: Option<Move> = None;
    let mut best_aspiration: Option<Move> = None;
    assert(n * n <= u32::MAX) by (nonlinear_arith)
        requires
            n <= 63,
    ;
    let mut u: u32 = 0;
    while u < n
        invariant
            u <= n,
            nn == n,
            n == entry.graph.order(),
            n * n <= u32::MAX,
            entry.wf(),
            score_small(*score, 17182720),
            tabu_until@.len() == nn * (nn - 1) / 2,
            best_move matches Some(m) ==> good_move(m, *entry, nn, k as nat, ell as nat),
            best_aspiration matches Some(m) ==> good_move(m, *entry, nn, k as nat, ell as nat)
                && score_less(m.2, best_score),
            best_move matches Some(m) ==> free_neutral(*entry, k as nat, ell as nat, tabu_until@, m.0 as int, m.1 as int, step)
                && m.2 == neutral_score(*entry, *score, m.0 as int, m.1 as int),
            best_aspiration matches Some(m) ==> m.2 == neutral_score(*entry, *score, m.0 as int, m.1 as int),
            best_move is None <==> !exists|a: int, b: int|
                a < u && #[trigger] free_neutral(*entry, k as nat, ell as nat, tabu_until@, a, b, step),
            best_move matches Some(m) ==> forall|a: int, b: int|
                a < u && #[trigger] free_neutral(*entry, k as nat, ell as nat, tabu_until@, a, b, step) ==> !score_less(
                    neutral_score(*entry, *score, a, b),
                    m.2,
                ),
            best_aspiration is None <==> !exists|a: int, b: int|
                a < u && #[trigger] aspiring_neutral(*entry, *score, k as nat, ell as nat, a, b, best_score),
            best_aspiration matches Some(m) ==> forall|a: int, b: int|
                a < u && #[trigger] aspiring_neutral(*entry, *score, k as nat, ell as nat, a, b, best_score)
                    ==> !score_less(neutral_score(*entry, *score, a, b), m.2),
        decreases n - u,
    {
        let mut v: u32 = u + 1;
        while v < n
            invariant
                u < n,
                u + 1 <= v <= n,
                nn == n,
                n == entry.graph.order(),
                n * n <= u32::MAX,
                entry.wf(),
                score_small(*score, 17182720),
                tabu_until@.len() == nn * (nn - 1) / 2,
                best_move matches Some(m) ==> good_move(m, *entry, nn, k as nat, ell as nat),
                best_aspiration matches Some(m) ==> good_move(m, *entry, nn, k as nat, ell as nat)
                    && score_less(m.2, best_score),
                best_move matches Some(m) ==> free_neutral(*entry, k as nat, ell as nat, tabu_until@, m.0 as int, m.1 as int, step)
                    && m.2 == neutral_score(*entry, *score, m.0 as int, m.1 as int),
                best_aspiration matches Some(m) ==> m.2 == neutral_score(*entry, *score, m.0 as int, m.1 as int),
                best_move is None <==> !exists|a: int, b: int|
                    (a < u || (a == u && b < v)) && #[trigger] free_neutral(*entry, k as nat, ell as nat, tabu_until@, a, b, step),
                best_move matches Some(m) ==> forall|a: int, b: int|
                    (a < u || (a == u && b < v)) && #[trigger] free_neutral(*entry, k as nat, ell as nat, tabu_until@, a, b, step)
                        ==> !score_less(neutral_score(*entry, *score, a, b), m.2),
                best_aspiration is None <==> !exists|a: int, b: int|
                    (a < u || (a == u && b < v)) && #[trigger] aspiring_neutral(*entry, *score, k as nat, ell as nat, a, b, best_score),
                best_aspiration matches Some(m) ==> forall|a: int, b: int|
                    (a < u || (a == u && b < v)) && #[trigger] aspiring_neutral(*entry, *score, k as nat, ell as nat, a, b, best_score)
                        ==> !score_less(neutral_score(*entry, *score, a, b), m.2),
            decreases n - v,
        {
            let ghost fv = free_neutral(*entry, k as nat, ell as nat, tabu_until@, u as int, v as int, step);
            let ghost av = aspiring_neutral(*entry, *score, k as nat, ell as nat, u as int, v as int, best_score);
            proof {
                if u as int + 1 <= v as int {
                    lemma_pair_index_below(nn, u as int, v as int);
                }
            }
            if let Some(m) = neutral_move(entry, score, k, ell, u, v) {
                let eidx = edge_index(u, v, n);
                proof {
                    lemma_pair_index_below(nn, u as int, v as int);
                }
                let is_tabu = tabu_until[eidx] as u64 > step;
                if !is_tabu {
                    let replace = match &best_move {
                        Some(bm) => score_lt(m.2, bm.2),
                        None => true,
                    };
                    if replace {
                        best_move = Some(m);
                    }
                }
                if score_lt(m.2, best_score) {
                    let replace = match &best_aspiration {
                        Some(ba) => score_lt(m.2, ba.2),
                        None => true,
                    };
                    if replace {
                        best_aspiration = Some(m);
                    }
                }
            }
            v = v + 1;
        }
        u = u + 1;
    }
    (best_move, best_aspiration)
}

/// The aspiration move when it beats the regular one (or is the only one),
/// else the regular move.
fn pick_move(aspiration: Option<Move>, regular: Option<Move>) -> (r: Option<Move>)
    ensures
        r is None <==> aspiration is None && regular is None,
        r matches Some(m) ==> aspiration == Some(m) || regular == Some(m),
        r matches Some(m) ==> (aspiration matches Some(a) ==> !score_less(a.2, m.2)),
        r matches Some(m) ==> (regular matches Some(g) ==> !score_less(g.2, m.2)),
        aspiration matches Some(a) ==> (regular matches Some(g) ==> (score_less(a.2, g.2) ==> r == aspiration) && (
        !score_less(a.2, g.2) ==> r == regular)),
{
    match (aspiration, regular) {
        (Some(asp), Some(reg)) => {
            if score_lt(asp.2, reg.2) {
                Some(asp)
            } else {
                Some(reg)
            }
        },
        (Some(asp), None) => Some(asp),
        (None, Some(reg)) => Some(reg),
        (None, None) => None,
    }
}

/// Polish a graph by a tabu walk over violation-neutral flips, steered by
/// the score tuple (the tracked counts are recounted every 100 steps).
/// Every graph the walk visits is appended to `discoveries`, each one flip
/// from the one before; the best-scoring one is returned if it improved on
/// the start, and nothing is done when `max_steps` is zero.
#[verifier::rlimit(100)]
pub fn polish_walk(
    graph: &AdjacencyMatrix,
    k: u32,
    ell: u32,
    max_steps: u32,
    tabu_tenure: u32,
    discoveries: &mut Vec<RawDiscovery>,
    iteration: u64,
) -> (r: Option<AdjacencyMatrix>)
    requires
        graph.wf(),
        graph.order() <= 63,
        max_steps > 0 ==> graph.order() >= 1,
        max_steps + tabu_tenure <= u32::MAX,
    ensures
        max_steps == 0 ==> r is None && final(discoveries)@ == old(discoveries)@,
        final(discoveries)@.len() >= old(discoveries)@.len(),
        final(discoveries)@.take(old(discoveries)@.len() as int) == old(discoveries)@,
        max_steps > 0 && final(discoveries)@.len() == old(discoveries)@.len() ==> forall|u: int, v: int|
            0 <= u < v < graph.order() ==> !#[trigger] violation_neutral(graph@, graph.order() as int, k as nat, ell as nat, u, v),
        is_walk(
            graph@,
            final(discoveries)@,
            old(discoveries)@.len() as int,
            graph.order() as int,
            k as nat,
            ell as nat,
            iteration,
        ),
        r matches Some(g) ==> g.wf() && g.order() == graph.order() && exists|i: int|
            old(discoveries)@.len() <= i < final(discoveries)@.len() && #[trigger] final(discoveries)@[i].graph@
                == g@,
        forall|i: int|
            old(discoveries)@.len() <= i < final(discoveries)@.len() ==> (#[trigger] final(discoveries)@[i]).graph.wf()
                && final(discoveries)@[i].graph.order() == graph.order() && final(discoveries)@[i].iteration
                == iteration,
        forall|i: int|
            old(discoveries)@.len() <= i < final(discoveries)@.len() ==> violation_count(
                #[trigger] final(discoveries)@[i].graph@,
                graph.order() as int,
                k as nat,
                ell as nat,
            ) == violation_count(graph@, graph.order() as int, k as nat, ell as nat),
        r matches Some(g) ==> violation_count(g@, graph.order() as int, k as nat, ell as nat) == violation_count(
            graph@,
            graph.order() as int,
            k as nat,
            ell as nat,
        ),
        r matches Some(g) ==> score_less(
            valid_score(g@, graph.order() as int),
            valid_score(graph@, graph.order() as int),
        ),
        r matches Some(g) ==> forall|i: int|
            old(discoveries)@.len() <= i < final(discoveries)@.len() ==> !score_less(
                valid_score(#[trigger] final(discoveries)@[i].graph@, graph.order() as int),
                valid_score(g@, graph.order() as int),
            ),
        r is None ==> forall|i: int|
            old(discoveries)@.len() <= i < final(discoveries)@.len() ==> !score_less(
                valid_score(#[trigger] final(discoveries)@[i].graph@, graph.order() as int),
                valid_score(graph@, graph.order() as int),
            ),
{
    if max_steps == 0 {
        proof {
            reveal(is_walk);
        }
        return None;
    }
    let n = graph.n();
    let ghost start = graph@;
    let ghost base = discoveries@.len() as int;
    assert(n * (n - 1) <= u32::MAX) by (nonlinear_arith)
        requires
            1 <= n <= 63,
    ;
    let edge_count = (n * (n - 1) / 2) as usize;
    let mut entry = BeamEntry::from_graph(graph.copy_of(), k, ell);
    proof {
        lemma_small_clique_totals(entry.adj_nbrs.masks@, n as int);
        lemma_small_clique_totals(entry.comp_nbrs.masks@, n as int);
    }
    let mut score = ScoreState::from_counts(&entry.adj_nbrs, &entry.comp_nbrs, n);
    let mut best_graph = graph.copy_of();
    let mut best_score = score.score_tuple();
    let mut improved = false;
    let mut tabu_until: Vec<u32> = Vec::new();
    let mut t: usize = 0;
    while t < edge_count
        invariant
            t <= edge_count,
            tabu_until@.len() == t,
            forall|i: int| 0 <= i < t ==> tabu_until@[i] == 0,
        decreases edge_count - t,
    {
        tabu_until.push(0);
        t = t + 1;
    }
    assert(is_walk(start, discoveries@, base, n as int, k as nat, ell as nat, iteration)) by {
        reveal(is_walk);
    }
    let mut step: u64 = 1;
    while step <= max_steps as u64
        invariant
            1 <= step <= max_steps as u64 + 1,
            max_steps + tabu_tenure <= u32::MAX,
            n == graph.order(),
            1 <= n <= 63,
            edge_count == n * (n - 1) / 2,
            tabu_until@.len() == edge_count,
            entry.wf(),
            entry.graph.order() == n,
            score_small(score, 16777216 + ((step - 1) % 100) * 4096),
            best_graph.wf(),
            best_graph.order() == n,
            base == old(discoveries)@.len(),
            discoveries@.len() >= base,
            discoveries@.take(base) == old(discoveries)@,
            discoveries@.len() == base + step - 1,
            max_steps >= 1,
            step == 1 ==> forall|i: int| 0 <= i < tabu_until@.len() ==> tabu_until@[i] == 0,
            step == 1 ==> entry.graph@ == graph@,
            start == graph@,
            is_walk(start, discoveries@, base, n as int, k as nat, ell as nat, iteration),
            entry.graph@ == walk_end(start, discoveries@, base),
            improved ==> exists|i: int|
                base <= i < discoveries@.len() && #[trigger] discoveries@[i].graph@ == best_graph@,
            tracks(score, entry.graph@, n as int),
            best_score == valid_score(best_graph@, n as int),
            improved ==> score_less(best_score, valid_score(start, n as int)),
            !improved ==> best_score == valid_score(start, n as int),
            forall|i: int|
                base <= i < discoveries@.len() ==> !score_less(
                    valid_score(#[trigger] discoveries@[i].graph@, n as int),
                    best_score,
                ),
        ensures
            discoveries@.len() == base ==> forall|u: int, v: int|
                0 <= u < v < graph.order() ==> !#[trigger] violation_neutral(graph@, graph.order() as int, k as nat, ell as nat, u, v),
        decreases max_steps as u64 + 1 - step,
    {
        if step % 100 == 0 {
            proof {
                lemma_small_clique_totals(entry.adj_nbrs.masks@, n as int);
                lemma_small_clique_totals(entry.comp_nbrs.masks@, n as int);
            }
            score = ScoreState::from_counts(&entry.adj_nbrs, &entry.comp_nbrs, n);
        }
        let ghost lim: int = if step % 100 == 0 {
            15752961
        } else {
            16777216 + ((step - 1) % 100) * 4096
        };
        assert(score_small(score, lim));
        let (best_regular, best_aspiration) = scan_moves(&entry, &score, k, ell, &tabu_until, step, best_score);
        let chosen = match pick_move(best_aspiration, best_regular) {
            Some(m) => m,
            None => {
                proof {
                    if step == 1 {
                        lemma_nothing_free_at_start(entry, k as nat, ell as nat, tabu_until@, step);
                    }
                }
                break ;
            },
        };
        let (u, v, new_tuple, d_r4, d_b4, d_r3, d_b3) = chosen;
        let ghost before = entry.graph@;
        let ghost dbefore = discoveries@;
        proof {
            lemma_tracked_flip(entry, score, u as int, v as int);
        }
        entry.flip(u, v);
        score.apply_delta(d_r4, d_b4, d_r3, d_b3);
        assert(score_small(score, lim + 4096));
        assert(n * n <= u32::MAX) by (nonlinear_arith)
            requires
                n <= 63,
        ;
        let eidx = edge_index(u, v, n);
        proof {
            lemma_pair_index_below(n as int, u as int, v as int);
        }
        tabu_until[eidx] = (step + tabu_tenure as u64) as u32;
        let found = RawDiscovery { graph: entry.graph.copy_of(), iteration };
        proof {
            lemma_walk_extends(start, dbefore, found, base, n as int, k as nat, ell as nat, iteration, u as int, v as int);
        }
        discoveries.push(found);
        proof {
            if improved {
                let w = choose|i: int| base <= i < dbefore.len() && #[trigger] dbefore[i].graph@ == best_graph@;
                assert(discoveries@[w] == dbefore[w]);
            }
        }
        if score_lt(new_tuple, best_score) {
            best_graph = entry.graph.copy_of();
            best_score = new_tuple;
            improved = true;
            proof {
                assert(discoveries@[discoveries@.len() - 1].graph@ == best_graph@);
            }
        }
        proof {
            if step % 100 != 0 {
                assert(step % 100 == (step - 1) % 100 + 1);
                assert(lim + 4096 == 16777216 + (step % 100) * 4096);
            } else {
                assert(lim + 4096 <= 16777216 + (step % 100) * 4096);
            }
        }
        step = step + 1;
    }
    proof {
        lemma_walk_keeps_violations(start, discoveries@, base, n as int, k as nat, ell as nat, iteration);
        reveal(is_walk);
    }
    if improved {
        Some(best_graph)
    } else {
        None
    }
}

/// What polishing reports and returns, given the walk `walk` it made from
/// `graph`: the returned graph is a walk graph that beats the start and no
/// walk graph scores below it; with nothing returned no walk graph beats
/// the start; every walk graph is valid and one flip from the one before.
pub open spec fn polish_result(
    graph: AdjacencyMatrix,
    k: nat,
    ell: nat,
    iteration: u64,
    walk: Seq<RawDiscovery>,
    r: Option<AdjacencyMatrix>,
) -> bool {
    let n = graph.order() as int;
    &&& is_walk(graph@, walk, 0, n, k, ell, iteration)
    &&& forall|i: int|
        0 <= i < walk.len() ==> (#[trigger] walk[i]).graph.wf() && walk[i].graph.order() == n && violation_count(
            walk[i].graph@,
            n,
            k,
            ell,
        ) == violation_count(graph@, n, k, ell)
    &&& r matches Some(g) ==> {
        &&& g.wf() && g.order() == n
        &&& exists|i: int| 0 <= i < walk.len() && #[trigger] walk[i].graph@ == g@
        &&& score_less(valid_score(g@, n), valid_score(graph@, n))
        &&& forall|i: int| 0 <= i < walk.len() ==> !score_less(valid_score(#[trigger] walk[i].graph@, n), valid_score(g@, n))
    }
    &&& r is None ==> forall|i: int| 0 <= i < walk.len() ==> !score_less(valid_score(#[trigger] walk[i].graph@, n), valid_score(graph@, n))
}

/// Polish a valid graph (`polish_walk`) and report the graphs of the walk
/// whose CID (`cid_of`, meant to name the isomorphism class) is neither
/// among `known_cids` nor that of an earlier graph of the walk, adding
/// their CIDs to `known_cids`. Gives back the best-scoring graph of the
/// walk when it beats the start.
pub fn polish_valid_graph<F: Fn(&AdjacencyMatrix) -> GraphCid>(
    graph: &AdjacencyMatrix,
    k: u32,
    ell: u32,
    max_steps: u32,
    tabu_tenure: u32,
    known_cids: &mut Vec<GraphCid>,
    cid_of: &F,
    discoveries: &mut Vec<RawDiscovery>,
    iteration: u64,
) -> (r: Option<AdjacencyMatrix>)
    requires
        graph.wf(),
        graph.order() <= 63,
        max_steps > 0 ==> graph.order() >= 1,
        max_steps + tabu_tenure <= u32::MAX,
        forall|g: &AdjacencyMatrix| g.wf() ==> #[trigger] cid_of.requires((g,)),
    ensures
        max_steps == 0 ==> r is None && final(discoveries)@ == old(discoveries)@ && final(known_cids)@ == old(
            known_cids,
        )@,
        final(discoveries)@.take(old(discoveries)@.len() as int) == old(discoveries)@,
        exists|walk: Seq<RawDiscovery>, c: Seq<GraphCid>, pos: Seq<int>|
            #[trigger] kept_new(
                *cid_of,
                walk,
                old(known_cids)@,
                final(known_cids)@,
                final(discoveries)@.skip(old(discoveries)@.len() as int),
                c,
                pos,
            ) && polish_result(*graph, k as nat, ell as nat, iteration, walk, r),
{
    let mut walk: Vec<RawDiscovery> = Vec::new();
    let r = polish_walk(graph, k, ell, max_steps, tabu_tenure, &mut walk, iteration);
    let ghost k0 = known_cids@;
    let mut kept = keep_new_discoveries(&walk, known_cids, cid_of);
    let ghost d0 = discoveries@;
    let ghost kept_view = kept@;
    discoveries.append(&mut kept);
    proof {
        assert(discoveries@.take(d0.len() as int) =~= d0);
        assert(discoveries@.skip(d0.len() as int) =~= kept_view);
        if max_steps == 0 {
            assert(walk@.len() == 0);
            let (c, pos) = choose|c: Seq<GraphCid>, pos: Seq<int>|
                #[trigger] kept_new(*cid_of, walk@, k0, known_cids@, kept_view, c, pos);
            if pos.len() > 0 {
                assert(0 <= pos[0] < walk@.len());
            }
            assert(known_cids@ =~= k0);
            assert(discoveries@ =~= d0);
        }
    }
    r
}

/// With no pair tabu yet, a graph with no free violation-neutral flip has
/// no violation-neutral flip at all.
proof fn lemma_nothing_free_at_start(e: BeamEntry, k: nat, ell: nat, tabu_until: Seq<u32>, step: u64)
    requires
        e.graph.order() <= 63,
        tabu_until.len() == e.graph.order() * (e.graph.order() - 1) / 2,
        forall|i: int| 0 <= i < tabu_until.len() ==> tabu_until[i] == 0,
        !exists|a: int, b: int| #[trigger] free_neutral(e, k, ell, tabu_until, a, b, step),
    ensures
        forall|u: int, v: int|
            0 <= u < v < e.graph.order() ==> !#[trigger] violation_neutral(e.graph@, e.graph.order() as int, k, ell, u, v),
{
    let n = e.graph.order() as int;
    assert forall|a: int, b: int| 0 <= a < b < n implies !#[trigger] violation_neutral(e.graph@, n, k, ell, a, b) by {
        if violation_neutral(e.graph@, n, k, ell, a, b) {
            lemma_pair_index_below(n, a, b);
            crate::adjacency::lemma_pair_index_bounds(n, a, b);
            assert(tabu_until[pair_index(n, a, b)] == 0);
            assert(free_neutral(e, k, ell, tabu_until, a, b, step));
        }
    }
}

/// Positions of pairs stay below the number of pairs.
pub proof fn lemma_pair_index_below(n: int, u: int, v: int)
    requires
        0 <= u < v < n,
    ensures
        pair_index(n, u, v) < n * (n - 1) / 2,
{
    crate::adjacency::lemma_pair_index_bounds(n, u, v);
    assert(row_start(n, u + 1) <= row_start(n, n)) by {
        crate::adjacency::lemma_row_start_mono(n, u + 1, n);
    }
    lemma_row_start_closed(n, n);
    lemma_consecutive_even(n - 1);
    assert(2 * row_start(n, n) == n * (n - 1)) by (nonlinear_arith)
        requires
            2 * row_start(n, n) == 2 * n * n - n * (n + 1),
    ;
}

/// The score tuple of a graph on `0..n`, as `score_valid_graph` computes
/// it.
pub open spec fn valid_score(edges: Set<(int, int)>, n: int) -> ValidScore {
    score_of(
        graph_cliques(edges, n, 4) as u64,
        graph_cliques(complement_edges(edges, n), n, 4) as u64,
        graph_cliques(edges, n, 3) as u64,
        graph_cliques(complement_edges(edges, n), n, 3) as u64,
    )
}

/// The pairs whose flip leaves the violation count of the entry's graph
/// unchanged, in row-major order.
fn neutral_pairs(e: &BeamEntry, k: u32, ell: u32) -> (r: Vec<(u32, u32)>)
    requires
        e.wf(),
    ensures
        forall|i: int| 0 <= i < r@.len() ==> (#[trigger] r@[i]).0 < r@[i].1 < e.graph.order() && violation_neutral(
            e.graph@,
            e.graph.order() as int,
            k as nat,
            ell as nat,
            r@[i].0 as int,
            r@[i].1 as int,
        ),
        forall|a: u32, b: u32| #[trigger] r@.contains((a, b)) <==> a < b < e.graph.order() && violation_neutral(
            e.graph@,
            e.graph.order() as int,
            k as nat,
            ell as nat,
            a as int,
            b as int,
        ),
{
    let n = e.graph.n();
    let mut r: Vec<(u32, u32)> = Vec::new();
    let mut u: u32 = 0;
    while u < n
        invariant
            u <= n,
            n == e.graph.order(),
            e.wf(),
            forall|i: int| 0 <= i < r@.len() ==> (#[trigger] r@[i]).0 < r@[i].1 < n && violation_neutral(
                e.graph@,
                n as int,
                k as nat,
                ell as nat,
                r@[i].0 as int,
                r@[i].1 as int,
            ),
            forall|x: u32, y: u32| #[trigger] r@.contains((x, y)) <==> x < y < n && x < u && violation_neutral(
                e.graph@,
                n as int,
                k as nat,
                ell as nat,
                x as int,
                y as int,
            ),
        decreases n - u,
    {
        let mut v: u32 = u + 1;
        while v < n
            invariant
                u < n,
                u + 1 <= v <= n,
                n == e.graph.order(),
                e.wf(),
                forall|i: int| 0 <= i < r@.len() ==> (#[trigger] r@[i]).0 < r@[i].1 < n && violation_neutral(
                    e.graph@,
                    n as int,
                    k as nat,
                    ell as nat,
                    r@[i].0 as int,
                    r@[i].1 as int,
                ),
                forall|x: u32, y: u32| #[trigger] r@.contains((x, y)) <==> x < y < n && (x < u || (x == u && y < v))
                    && violation_neutral(e.graph@, n as int, k as nat, ell as nat, x as int, y as int),
            decreases n - v,
        {
            proof {
                lemma_through_bounds(e.adj_nbrs.masks@, k as nat, u as int, v as int, true);
                lemma_through_bounds(e.comp_nbrs.masks@, ell as nat, u as int, v as int, true);
                lemma_through_bounds(e.comp_nbrs.masks@, ell as nat, u as int, v as int, false);
            }
            let ghost before = r@;
            let (dk, de) = violation_delta(&e.adj_nbrs, &e.comp_nbrs, k, ell, u, v);
            let ghost neutral = violation_neutral(e.graph@, n as int, k as nat, ell as nat, u as int, v as int);
            assert(neutral <==> dk + de == 0);
            if dk + de == 0 {
                r.push((u, v));
            }
            proof {
                assert forall|x: u32, y: u32| #[trigger] r@.contains((x, y)) <==> x < y < n && (x < u || (x == u && y
                    < v + 1)) && violation_neutral(e.graph@, n as int, k as nat, ell as nat, x as int, y as int) by {
                    if r@.contains((x, y)) {
                        let j = choose|j: int| 0 <= j < r@.len() && r@[j] == (x, y);
                        if j < before.len() {
                            assert(before[j] == (x, y));
                            assert(before.contains((x, y)));
                        }
                    }
                    if x < y < n && (x < u || (x == u && y < v + 1)) && violation_neutral(
                        e.graph@,
                        n as int,
                        k as nat,
                        ell as nat,
                        x as int,
                        y as int,
                    ) {
                        if (x, y) != (u, v) {
                            assert(before.contains((x, y)));
                            let j = choose|j: int| 0 <= j < before.len() && before[j] == (x, y);
                            assert(r@[j] == (x, y));
                        } else {
                            assert(r@[before.len() as int] == (x, y));
                        }
                    }
                }
            }
            v = v + 1;
        }
        u = u + 1;
    }
    r
}

/// Perturb a graph by up to `num_flips` random violation-neutral flips,
/// each drawn among the neutral pairs of the graph at that moment; stops
/// early when there is none. The violation count is kept.
pub fn perturb_valid(graph: &AdjacencyMatrix, k: u32, ell: u32, num_flips: u32, rng: &mut SmallRng) -> (r: AdjacencyMatrix)
    requires
        graph.wf(),
        graph.order() <= 63,
    ensures
        r.wf(),
        r.order() == graph.order(),
        violation_count(r@, graph.order() as int, k as nat, ell as nat) == violation_count(
            graph@,
            graph.order() as int,
            k as nat,
            ell as nat,
        ),
{
    let ghost n = graph.order() as int;
    let mut e = BeamEntry::from_graph(graph.copy_of(), k, ell);
    let mut t: u32 = 0;
    while t < num_flips
        invariant
            t <= num_flips,
            e.wf(),
            e.graph.order() == n,
            n <= 63,
            violation_count(e.graph@, n, k as nat, ell as nat) == violation_count(graph@, n, k as nat, ell as nat),
        decreases num_flips - t,
    {
        let candidates = neutral_pairs(&e, k, ell);
        if candidates.len() == 0 {
            break;
        }
        let (u, v) = choose_pair(rng, candidates.as_slice());
        proof {
            let i = choose|i: int| 0 <= i < candidates@.len() && candidates@[i] == (u, v);
            assert(violation_neutral(e.graph@, n, k as nat, ell as nat, u as int, v as int)) by {
                assert(candidates@[i] == (u, v));
            }
            lemma_neutral_flip_keeps_violations(e.graph@, n, k as nat, ell as nat, u as int, v as int);
        }
        e.flip(u, v);
        t = t + 1;
    }
    e.graph
}

/// Iterated polish: a polish walk, then `restarts` rounds of perturbing
/// the current graph by `perturb_edges` neutral flips and polishing again,
/// each round moving on from where its walk ended. Every graph the walks
/// visit is reported; the best-scoring graph found is returned when it
/// beats the input, and with no restarts this is a single polish walk.
pub(crate) fn ils_walk(
    graph: &AdjacencyMatrix,
    k: u32,
    ell: u32,
    max_steps: u32,
    tabu_tenure: u32,
    restarts: u32,
    perturb_edges: u32,
    discoveries: &mut Vec<RawDiscovery>,
    iteration: u64,
    rng: &mut SmallRng,
) -> (r: Option<AdjacencyMatrix>)
    requires
        graph.wf(),
        1 <= graph.order() <= 63,
        max_steps + tabu_tenure <= u32::MAX,
    ensures
        max_steps > 0 && final(discoveries)@.len() == old(discoveries)@.len() ==> forall|u: int, v: int|
            0 <= u < v < graph.order() ==> !#[trigger] violation_neutral(graph@, graph.order() as int, k as nat, ell as nat, u, v),
        final(discoveries)@.len() >= old(discoveries)@.len(),
        final(discoveries)@.take(old(discoveries)@.len() as int) == old(discoveries)@,
        forall|i: int|
            old(discoveries)@.len() <= i < final(discoveries)@.len() ==> (#[trigger] final(discoveries)@[i]).graph.wf()
                && final(discoveries)@[i].graph.order() == graph.order() && violation_count(
                final(discoveries)@[i].graph@,
                graph.order() as int,
                k as nat,
                ell as nat,
            ) == violation_count(graph@, graph.order() as int, k as nat, ell as nat),
        r matches Some(g) ==> g.wf() && g.order() == graph.order() && violation_count(
            g@,
            graph.order() as int,
            k as nat,
            ell as nat,
        ) == violation_count(graph@, graph.order() as int, k as nat, ell as nat),
        r matches Some(g) ==> score_less(
            valid_score(g@, graph.order() as int),
            valid_score(graph@, graph.order() as int),
        ),
        r matches Some(g) ==> forall|i: int|
            old(discoveries)@.len() <= i < final(discoveries)@.len() ==> !score_less(
                valid_score(#[trigger] final(discoveries)@[i].graph@, graph.order() as int),
                valid_score(g@, graph.order() as int),
            ),
        r is None ==> forall|i: int|
            old(discoveries)@.len() <= i < final(discoveries)@.len() ==> !score_less(
                valid_score(#[trigger] final(discoveries)@[i].graph@, graph.order() as int),
                valid_score(graph@, graph.order() as int),
            ),
{
    let ghost base = discoveries@.len();
    let ghost n = graph.order() as int;
    let ghost vc = violation_count(graph@, n, k as nat, ell as nat);
    if restarts == 0 {
        return polish_walk(graph, k, ell, max_steps, tabu_tenure, discoveries, iteration);
    }
    let nn = graph.n();
    let input_score = score_valid_graph(graph, nn);
    let initial = polish_walk(graph, k, ell, max_steps, tabu_tenure, discoveries, iteration);
    let ghost first_len = discoveries@.len();
    let mut best_graph: Option<AdjacencyMatrix> = None;
    let mut best_score = input_score;
    let mut current = match initial {
        Some(p) => {
            let s = score_valid_graph(&p, nn);
            if score_lt(s, best_score) {
                best_score = s;
                best_graph = Some(p.copy_of());
            }
            p
        },
        None => graph.copy_of(),
    };
    let mut round: u32 = 0;
    while round < restarts
        invariant
            round <= restarts,
            nn == n,
            1 <= n <= 63,
            max_steps + tabu_tenure <= u32::MAX,
            current.wf(),
            current.order() == n,
            violation_count(current@, n, k as nat, ell as nat) == vc,
            best_graph matches Some(g) ==> g.wf() && g.order() == n && violation_count(g@, n, k as nat, ell as nat)
                == vc && best_score == valid_score(g@, n),
            best_graph is None ==> best_score == input_score,
            input_score == valid_score(graph@, n),
            best_graph matches Some(g) ==> score_less(best_score, input_score),
            discoveries@.len() >= base,
            discoveries@.len() >= first_len,
            max_steps > 0 && first_len == base ==> forall|u: int, v: int|
                0 <= u < v < graph.order() ==> !#[trigger] violation_neutral(graph@, graph.order() as int, k as nat, ell as nat, u, v),
            discoveries@.take(base as int) == old(discoveries)@,
            forall|i: int|
                base <= i < discoveries@.len() ==> (#[trigger] discoveries@[i]).graph.wf()
                    && discoveries@[i].graph.order() == n && violation_count(discoveries@[i].graph@, n, k as nat, ell as nat)
                    == vc,
            forall|i: int|
                base <= i < discoveries@.len() ==> !score_less(valid_score(#[trigger] discoveries@[i].graph@, n), best_score),
        decreases restarts - round,
    {
        let perturbed = perturb_valid(&current, k, ell, perturb_edges, rng);
        let ghost before = discoveries@;
        let result = polish_walk(&perturbed, k, ell, max_steps, tabu_tenure, discoveries, iteration);
        proof {
            let d = discoveries@;
            assert forall|i: int| base <= i < d.len() implies (#[trigger] d[i]).graph.wf() && d[i].graph.order() == n
                && violation_count(d[i].graph@, n, k as nat, ell as nat) == vc by {
                if i < before.len() {
                    assert(d[i] == before[i]);
                }
            }
            assert(d.take(base as int) =~= before.take(base as int));
            assert forall|i: int| base <= i < before.len() implies #[trigger] d[i] == before[i] by {}
        }
        let local_opt = match result {
            Some(p) => p,
            None => perturbed,
        };
        let local_score = score_valid_graph(&local_opt, nn);
        if score_lt(local_score, best_score) {
            best_score = local_score;
            best_graph = Some(local_opt.copy_of());
        }
        current = local_opt;
        round = round + 1;
    }
    best_graph
}

/// What an iterated polish of `graph` gives, with `walk` the graphs its
/// walks visited: each has the start's violation count; a graph given back
/// has that count too, beats the start and is beaten by none of the walk;
/// with none given back, none of the walk beats the start.
pub open spec fn ils_result(graph: AdjacencyMatrix, k: nat, ell: nat, walk: Seq<RawDiscovery>, r: Option<AdjacencyMatrix>) -> bool {
    let n = graph.order() as int;
    &&& forall|i: int|
        0 <= i < walk.len() ==> (#[trigger] walk[i]).graph.wf() && walk[i].graph.order() == n && violation_count(
            walk[i].graph@,
            n,
            k,
            ell,
        ) == violation_count(graph@, n, k, ell)
    &&& r matches Some(g) ==> {
        &&& g.wf() && g.order() == n
        &&& violation_count(g@, n, k, ell) == violation_count(graph@, n, k, ell)
        &&& score_less(valid_score(g@, n), valid_score(graph@, n))
        &&& forall|i: int| 0 <= i < walk.len() ==> !score_less(valid_score(#[trigger] walk[i].graph@, n), valid_score(g@, n))
    }
    &&& r is None ==> forall|i: int| 0 <= i < walk.len() ==> !score_less(valid_score(#[trigger] walk[i].graph@, n), valid_score(graph@, n))
}

/// Iterated polish (`ils_walk`) that reports only the visited graphs whose
/// CID (`cid_of`, meant to name the isomorphism class) is neither among
/// `known_cids` nor that of an earlier visited graph, adding their CIDs to
/// `known_cids`. Gives back the best-scoring graph found when it beats the
/// input.
pub fn ils_polish<F: Fn(&AdjacencyMatrix) -> GraphCid>(
    graph: &AdjacencyMatrix,
    k: u32,
    ell: u32,
    max_steps: u32,
    tabu_tenure: u32,
    restarts: u32,
    perturb_edges: u32,
    known_cids: &mut Vec<GraphCid>,
    cid_of: &F,
    discoveries: &mut Vec<RawDiscovery>,
    iteration: u64,
    rng: &mut SmallRng,
) -> (r: Option<AdjacencyMatrix>)
    requires
        graph.wf(),
        1 <= graph.order() <= 63,
        max_steps + tabu_tenure <= u32::MAX,
        forall|g: &AdjacencyMatrix| g.wf() ==> #[trigger] cid_of.requires((g,)),
    ensures
        final(discoveries)@.take(old(discoveries)@.len() as int) == old(discoveries)@,
        exists|walk: Seq<RawDiscovery>, c: Seq<GraphCid>, pos: Seq<int>|
            #[trigger] kept_new(
                *cid_of,
                walk,
                old(known_cids)@,
                final(known_cids)@,
                final(discoveries)@.skip(old(discoveries)@.len() as int),
                c,
                pos,
            ) && ils_result(*graph, k as nat, ell as nat, walk, r),
{
    let mut walk: Vec<RawDiscovery> = Vec::new();
    let r = ils_walk(graph, k, ell, max_steps, tabu_tenure, restarts, perturb_edges, &mut walk, iteration, rng);
    proof {
        assert(walk@.take(0) =~= Seq::<RawDiscovery>::empty());
    }
    let ghost w = walk@;
    let mut kept = keep_new_discoveries(&walk, known_cids, cid_of);
    let ghost d0 = discoveries@;
    let ghost kept_view = kept@;
    discoveries.append(&mut kept);
    proof {
        assert(discoveries@.take(d0.len() as int) =~= d0);
        assert(discoveries@.skip(d0.len() as int) =~= kept_view);
        assert(ils_result(*graph, k as nat, ell as nat, w, r));
    }
    r
}

/// `max_min` orders two counts: the first is the larger, the second the
/// smaller, and together they are the two counts.
pub proof fn lemma_max_min(a: u64, b: u64)
    ensures
        max_min(a, b).0 >= a && max_min(a, b).0 >= b,
        max_min(a, b).1 <= a && max_min(a, b).1 <= b,
        (max_min(a, b).0 == a && max_min(a, b).1 == b) || (max_min(a, b).0 == b && max_min(a, b).1 == a),
{
}

/// A graph's 4-clique key is its larger and then its smaller 4-clique
/// count, the graph's and the complement's.
pub proof fn lemma_four_key(edges: Set<(int, int)>, n: int)
    ensures
        ({
            let r = graph_cliques(edges, n, 4) as u64;
            let b = graph_cliques(complement_edges(edges, n), n, 4) as u64;
            let key = four_key(edges, n);
            &&& key.0 >= r && key.0 >= b
            &&& key.1 <= r && key.1 <= b
            &&& (key.0 == r && key.1 == b) || (key.0 == b && key.1 == r)
        }),
{
}

/// A score ranks by the 4-clique counts, larger first, then by the
/// triangle counts, larger first.
pub proof fn lemma_score_of(r4: u64, b4: u64, r3: u64, b3: u64)
    ensures
        ({
            let s = score_of(r4, b4, r3, b3);
            &&& s.0 >= r4 && s.0 >= b4 && s.1 <= r4 && s.1 <= b4 && s.0 + s.1 == r4 + b4
            &&& s.2 >= r3 && s.2 >= b3 && s.3 <= r3 && s.3 <= b3 && s.2 + s.3 == r3 + b3
        }),
{
}

} // verus!
