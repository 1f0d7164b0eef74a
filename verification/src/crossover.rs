//! Crossover: offspring of two parent graphs, each pair taken from one
//! parent or the other by a biased coin, repaired by tabu search with
//! aspiration; valid results are reported, polished and kept as parents
//! for later rounds.

use rand::distributions::Bernoulli;
use rand::rngs::SmallRng;
use vstd::prelude::*;

use crate::adjacency::{AdjacencyMatrix, is_vertex_pair, ordered, pair_index, visited};

use crate::clique::{lemma_cliques_of_small, lemma_through_bounds, red_delta, blue_delta, violation_delta};
use crate::construct::violations_are;
use crate::gradient::{all_pairs_list, lemma_entry_flip};
use crate::guilty::{guilty_edges, guilty_pairs};
use crate::histogram::complement_edges;
use crate::polish::{all_valid, count_violations, edge_index, lemma_kept_valid, polish_walk, violation_count};
use crate::random::{bernoulli_draw, choose_pair, choose_position, perturb, random_graph, seeded_rng, toggle, toggle_all};
use crate::search::{CrossoverSearch, RawDiscovery, SearchResult, keep_new_discoveries, kept_new};
use crate::types::GraphCid;
use crate::tree2::BeamEntry;

verus! {

/// The parameters of a crossover round (the coin's bias is handed over as
/// a distribution).
pub struct CrossoverConfig {
    /// Clique size to avoid in the graph.
    pub k: u32,
    /// Clique size to avoid in the complement.
    pub ell: u32,
    /// Offspring per round.
    pub num_offspring: u32,
    /// Steps a flipped pair stays tabu during repair.
    pub tabu_tenure: u64,
    /// Random flips turning the first parent into the second when the pool
    /// is empty.
    pub perturb_flips: u32,
    /// Steps of each polish walk (zero: no polishing).
    pub polish_max_steps: u32,
    /// Steps a pair stays tabu while polishing.
    pub polish_tabu_tenure: u32,
}

impl CrossoverConfig {
    /// The parameters a round uses when none are given.
    pub fn defaults() -> (r: Self)
        ensures
            r.k == 5,
            r.ell == 5,
            r.num_offspring == 10,
            r.tabu_tenure == 50,
            r.perturb_flips == 8,
            r.polish_max_steps == 100,
            r.polish_tabu_tenure == 25,
    {
        CrossoverConfig {
            k: 5,
            ell: 5,
            num_offspring: 10,
            tabu_tenure: 50,
            perturb_flips: 8,
            polish_max_steps: 100,
            polish_tabu_tenure: 25,
        }
    }
}

/// Most parents kept between rounds.
pub const MAX_PARENT_POOL: usize = 20;

/// What a crossover round has found so far.
pub struct CrossoverRun {
    pub discoveries: Vec<RawDiscovery>,
    pub best_valid: Option<AdjacencyMatrix>,
    pub best_invalid: Option<(AdjacencyMatrix, u64)>,
    pub pool: Vec<AdjacencyMatrix>,
}

impl CrossoverRun {
    /// The discoveries and the best valid graph are valid, the best invalid
    /// one carries its violation count, a valid graph is known exactly when
    /// one was reported, and the pool holds graphs on `n` vertices.
    pub open spec fn inv(&self, n: int, k: nat, ell: nat) -> bool {
        &&& all_valid(self.discoveries@, n, k, ell)
        &&& self.best_valid matches Some(g) ==> g.wf() && g.order() == n && violation_count(g@, n, k, ell) == 0
        &&& self.best_invalid matches Some(b) ==> b.0.wf() && b.0.order() == n && b.1 == violation_count(b.0@, n, k, ell)
            && b.1 > 0
        &&& (self.best_valid is Some <==> self.discoveries@.len() > 0)
        &&& forall|i: int| 0 <= i < self.pool@.len() ==> (#[trigger] self.pool@[i]).wf() && self.pool@[i].order() == n
    }
}

/// The pool keeps its graphs in their places and gains only valid
/// graphs, and only while it holds fewer than `MAX_PARENT_POOL`.
pub open spec fn pool_extends(before: Seq<AdjacencyMatrix>, after: Seq<AdjacencyMatrix>, n: int, k: nat, ell: nat) -> bool {
    &&& before.len() <= after.len()
    &&& after.len() <= if before.len() > MAX_PARENT_POOL {
        before.len() as int
    } else {
        MAX_PARENT_POOL as int
    }
    &&& forall|i: int| 0 <= i < before.len() ==> after[i] == before[i]
    &&& forall|i: int| before.len() <= i < after.len() ==> violation_count((#[trigger] after[i])@, n, k, ell) == 0
}

/// Report a valid graph, make it the best, keep it as a parent while the
/// pool has room, then polish it and do the same with the polished graph.
fn handle_valid(graph: &AdjacencyMatrix, cfg: &CrossoverConfig, run: &mut CrossoverRun, iteration: u64)
    requires
        graph.wf(),
        1 <= graph.order() <= 63,
        violation_count(graph@, graph.order() as int, cfg.k as nat, cfg.ell as nat) == 0,
        cfg.polish_max_steps + cfg.polish_tabu_tenure <= u32::MAX,
        old(run).inv(graph.order() as int, cfg.k as nat, cfg.ell as nat),
    ensures
        final(run).inv(graph.order() as int, cfg.k as nat, cfg.ell as nat),
        pool_extends(old(run).pool@, final(run).pool@, graph.order() as int, cfg.k as nat, cfg.ell as nat),
        old(run).discoveries@.len() < final(run).discoveries@.len(),
        final(run).best_invalid == old(run).best_invalid,
{
    let ghost n = graph.order() as int;
    let k = cfg.k;
    let ell = cfg.ell;
    let ghost before = run.discoveries@;
    run.discoveries.push(RawDiscovery { graph: graph.copy_of(), iteration });
    proof {
        let d = run.discoveries@;
        assert forall|j: int| 0 <= j < d.len() implies (#[trigger] d[j]).graph.wf() && d[j].graph.order() == n
            && violation_count(d[j].graph@, n, k as nat, ell as nat) == 0 by {
            if j < before.len() {
                assert(d[j] == before[j]);
            }
        }
    }
    run.best_valid = Some(graph.copy_of());
    if run.pool.len() < MAX_PARENT_POOL {
        run.pool.push(graph.copy_of());
    }
    if cfg.polish_max_steps > 0 {
        let ghost before_polish = run.discoveries@;
        let polished = polish_walk(
            graph,
            k,
            ell,
            cfg.polish_max_steps,
            cfg.polish_tabu_tenure,
            &mut run.discoveries,
            iteration,
        );
        proof {
            let d = run.discoveries@;
            assert forall|j: int| 0 <= j < d.len() implies (#[trigger] d[j]).graph.wf() && d[j].graph.order() == n
                && violation_count(d[j].graph@, n, k as nat, ell as nat) == 0 by {
                if j < before_polish.len() {
                    assert(d[j] == before_polish[j]);
                }
            }
        }
        if let Some(p) = polished {
            run.best_valid = Some(p.copy_of());
            if run.pool.len() < MAX_PARENT_POOL {
                run.pool.push(p);
            }
        }
    }
}

/// Every pair the two parents share is in the offspring, and every pair of
/// the offspring is in one of the parents.
pub open spec fn inherits(g: Set<(int, int)>, a: Set<(int, int)>, b: Set<(int, int)>) -> bool {
    a.intersect(b).subset_of(g) && g.subset_of(a.union(b))
}

/// Parents that agree have only their common graph as offspring.
pub proof fn lemma_same_parents(g: Set<(int, int)>, a: Set<(int, int)>)
    requires
        inherits(g, a, a),
    ensures
        g == a,
{
    assert(g =~= a);
}

/// Uniform crossover: each pair of the offspring is taken from `a` when a
/// draw of `rate` comes up true and from `b` otherwise.
pub fn make_offspring(a: &AdjacencyMatrix, b: &AdjacencyMatrix, rate: &Bernoulli, rng: &mut SmallRng) -> (g:
    AdjacencyMatrix)
    requires
        a.wf(),
        b.wf(),
        a.order() == b.order(),
    ensures
        g.wf(),
        g.order() == a.order(),
        inherits(g@, a@, b@),
{
    let n = a.n();
    let mut g = AdjacencyMatrix::new(n);
    proof {
        a.lemma_edges_are_pairs();
    }
    let mut u: u32 = 0;
    while u < n
        invariant
            u <= n,
            n == a.order(),
            n == b.order(),
            a.wf(),
            b.wf(),
            g.wf(),
            g.order() == n,
            g@.subset_of(a@.union(b@)),
            forall|p: (int, int)| #[trigger] a@.contains(p) && b@.contains(p) && visited(p, u as int, 0) ==> g@.contains(p),
            forall|p: (int, int)| #[trigger] a@.contains(p) ==> is_vertex_pair(n as int, p),
        decreases n - u,
    {
        let mut v: u32 = u + 1;
        while v < n
            invariant
                u < n,
                u + 1 <= v <= n,
                n == a.order(),
                n == b.order(),
                a.wf(),
                b.wf(),
                g.wf(),
                g.order() == n,
                g@.subset_of(a@.union(b@)),
                forall|p: (int, int)| #[trigger] a@.contains(p) && b@.contains(p) && visited(p, u as int, v as int) ==> g@.contains(p),
                forall|p: (int, int)| #[trigger] a@.contains(p) ==> is_vertex_pair(n as int, p),
            decreases n - v,
        {
            let edge = if bernoulli_draw(rng, rate) {
                a.edge(u, v)
            } else {
                b.edge(u, v)
            };
            g.set_edge(u, v, edge);
            v = v + 1;
        }
        u = u + 1;
    }
    g
}

/// A move: the pair and the change in the violation count its flip makes.
pub type Move = (u32, u32, i64);

/// The move is a flip of a pair of the entry's graph with its exact delta.
pub open spec fn exact_move(m: Move, e: BeamEntry, k: nat, ell: nat) -> bool {
    &&& m.0 < m.1 < e.graph.order()
    &&& m.2 == red_delta(e.adj_nbrs.masks@, k, m.0 as int, m.1 as int) + blue_delta(
        e.adj_nbrs.masks@,
        e.comp_nbrs.masks@,
        ell,
        m.0 as int,
        m.1 as int,
    )
}

/// The change in the violation count that flipping the pair `p` makes.
pub open spec fn move_delta(e: BeamEntry, k: nat, ell: nat, p: (u32, u32)) -> int {
    red_delta(e.adj_nbrs.masks@, k, p.0 as int, p.1 as int) + blue_delta(
        e.adj_nbrs.masks@,
        e.comp_nbrs.masks@,
        ell,
        p.0 as int,
        p.1 as int,
    )
}

/// The pair `p` is not tabu at step `iter`.
pub open spec fn move_free(tabu_until: Seq<u64>, n: int, p: (u32, u32), iter: u64) -> bool {
    tabu_until[pair_index(n, p.0 as int, p.1 as int)] <= iter
}

/// Flipping `p` would bring the violation count below `best_ever`.
pub open spec fn move_aspires(e: BeamEntry, k: nat, ell: nat, p: (u32, u32), violations: u64, best_ever: u64) -> bool {
    violations + move_delta(e, k, ell, p) < best_ever
}

/// Over the candidate pairs: the free pair with the lowest delta, and the
/// pair with the lowest delta among those whose flip would beat
/// `best_ever` (tabu or not), the first found winning ties; each is none
/// exactly when no candidate qualifies.
pub(crate) fn best_moves(
    e: &BeamEntry,
    candidates: &Vec<(u32, u32)>,
    tabu_until: &Vec<u64>,
    iter: u64,
    violations: u64,
    best_ever: u64,
    k: u32,
    ell: u32,
) -> (r: (Option<Move>, Option<Move>))
    requires
        e.wf(),
        forall|i: int| 0 <= i < candidates@.len() ==> (#[trigger] candidates@[i]).0 < candidates@[i].1 < e.graph.order(),
        tabu_until@.len() == e.graph.order() * (e.graph.order() - 1) / 2,
        violations_are(*e, violations, k as nat, ell as nat),
    ensures
        r.0 matches Some(m) ==> exact_move(m, *e, k as nat, ell as nat),
        r.1 matches Some(m) ==> exact_move(m, *e, k as nat, ell as nat),
        r.0 is None <==> !exists|i: int|
            0 <= i < candidates@.len() && move_free(tabu_until@, e.graph.order() as int, #[trigger] candidates@[i], iter),
        r.0 matches Some(m) ==> (exists|i: int|
            0 <= i < candidates@.len() && #[trigger] candidates@[i] == (m.0, m.1) && move_free(
                tabu_until@,
                e.graph.order() as int,
                candidates@[i],
                iter,
            )) && forall|i: int|
            0 <= i < candidates@.len() && move_free(tabu_until@, e.graph.order() as int, #[trigger] candidates@[i], iter)
                ==> m.2 <= move_delta(*e, k as nat, ell as nat, candidates@[i]),
        r.1 is None <==> !exists|i: int|
            0 <= i < candidates@.len() && move_aspires(
                *e,
                k as nat,
                ell as nat,
                #[trigger] candidates@[i],
                violations,
                best_ever,
            ),
        r.1 matches Some(m) ==> (exists|i: int|
            0 <= i < candidates@.len() && #[trigger] candidates@[i] == (m.0, m.1) && move_aspires(
                *e,
                k as nat,
                ell as nat,
                candidates@[i],
                violations,
                best_ever,
            )) && forall|i: int|
            0 <= i < candidates@.len() && move_aspires(*e, k as nat, ell as nat, #[trigger] candidates@[i], violations, best_ever)
                ==> m.2 <= move_delta(*e, k as nat, ell as nat, candidates@[i]),
{
    let n = e.graph.n();
    let mut best_move: Option<Move> = None;
    let mut best_aspiration: Option<Move> = None;
    assert(n * n <= u32::MAX) by (nonlinear_arith)
        requires
            n <= 63,
    ;
    let mut i: usize = 0;
    while i < candidates.len()
        invariant
            i <= candidates@.len(),
            n == e.graph.order(),
            n * n <= u32::MAX,
            e.wf(),
            forall|j: int| 0 <= j < candidates@.len() ==> (#[trigger] candidates@[j]).0 < candidates@[j].1 < n,
            tabu_until@.len() == n * (n - 1) / 2,
            violations_are(*e, violations, k as nat, ell as nat),
            best_move matches Some(m) ==> exact_move(m, *e, k as nat, ell as nat),
            best_aspiration matches Some(m) ==> exact_move(m, *e, k as nat, ell as nat),
            best_move is None <==> !exists|j: int|
                0 <= j < i && move_free(tabu_until@, n as int, #[trigger] candidates@[j], iter),
            best_move matches Some(m) ==> (exists|j: int|
                0 <= j < i && #[trigger] candidates@[j] == (m.0, m.1) && move_free(tabu_until@, n as int, candidates@[j], iter))
                && forall|j: int|
                0 <= j < i && move_free(tabu_until@, n as int, #[trigger] candidates@[j], iter) ==> m.2 <= move_delta(
                    *e,
                    k as nat,
                    ell as nat,
                    candidates@[j],
                ),
            best_aspiration is None <==> !exists|j: int|
                0 <= j < i && move_aspires(*e, k as nat, ell as nat, #[trigger] candidates@[j], violations, best_ever),
            best_aspiration matches Some(m) ==> (exists|j: int|
                0 <= j < i && #[trigger] candidates@[j] == (m.0, m.1) && move_aspires(
                    *e,
                    k as nat,
                    ell as nat,
                    candidates@[j],
                    violations,
                    best_ever,
                )) && forall|j: int|
                0 <= j < i && move_aspires(*e, k as nat, ell as nat, #[trigger] candidates@[j], violations, best_ever)
                    ==> m.2 <= move_delta(*e, k as nat, ell as nat, candidates@[j]),
        decreases candidates@.len() - i,
    {
        let (u, v) = candidates[i];
        proof {
            lemma_through_bounds(e.adj_nbrs.masks@, k as nat, u as int, v as int, true);
            lemma_through_bounds(e.comp_nbrs.masks@, ell as nat, u as int, v as int, true);
            lemma_through_bounds(e.comp_nbrs.masks@, ell as nat, u as int, v as int, false);
            lemma_entry_flip(*e, k as nat, ell as nat, u as int, v as int);
            lemma_cliques_of_small(
                crate::clique::graph_masks(toggle(e.graph@, ordered(u as int, v as int)), n as int),
                k as nat,
                n as int,
            );
            lemma_cliques_of_small(
                crate::clique::graph_masks(
                    complement_edges(toggle(e.graph@, ordered(u as int, v as int)), n as int),
                    n as int,
                ),
                ell as nat,
                n as int,
            );
        }
        let (dk, de) = violation_delta(&e.adj_nbrs, &e.comp_nbrs, k, ell, u, v);
        let delta = dk + de;
        let new_violations = if delta < 0 {
            violations - ((0 - delta) as u64)
        } else {
            violations + (delta as u64)
        };
        let eidx = edge_index(u, v, n);
        proof {
            crate::polish::lemma_pair_index_below(n as int, u as int, v as int);
        }
        let is_tabu = tabu_until[eidx] > iter;
        assert(move_free(tabu_until@, n as int, candidates@[i as int], iter) == !is_tabu);
        assert(move_aspires(*e, k as nat, ell as nat, candidates@[i as int], violations, best_ever) == (new_violations
            < best_ever));
        assert(delta == move_delta(*e, k as nat, ell as nat, candidates@[i as int]));
        if !is_tabu {
            let replace = match &best_move {
                Some(m) => delta < m.2,
                None => true,
            };
            if replace {
                best_move = Some((u, v, delta));
            }
        }
        if new_violations < best_ever {
            let replace = match &best_aspiration {
                Some(m) => delta < m.2,
                None => true,
            };
            if replace {
                best_aspiration = Some((u, v, delta));
            }
        }
        i = i + 1;
    }
    (best_move, best_aspiration)
}

/// The pairs lying in a `k`-clique of the entry's graph or an
/// `ell`-clique of its complement.
pub(crate) fn focus_pairs(e: &BeamEntry, k: u32, ell: u32) -> (r: Vec<(u32, u32)>)
    requires
        e.wf(),
    ensures
        forall|i: int| 0 <= i < r@.len() ==> (#[trigger] r@[i]).0 < r@[i].1 < e.graph.order(),
        forall|a: u32, b: u32|
            #[trigger] r@.contains((a, b)) <==> guilty_pairs(
                e.adj_nbrs.masks@,
                e.comp_nbrs.masks@,
                k as nat,
                ell as nat,
                e.graph.order() as int,
            ).contains((a as int, b as int)),
{
    guilty_edges(&e.adj_nbrs, &e.comp_nbrs, k, ell, e.graph.n())
}

/// Tabu repair of an offspring, `iters` steps: at each step the better of
/// the best free move and the best aspiring move (the aspiring one on a
/// tie only when strictly better) is flipped, a random pair when there is
/// neither; the candidates are the pairs lying in a violation while at
/// most 20 violations are left and there are such pairs, all pairs
/// otherwise. A flipped pair stays tabu for `tabu_tenure` steps. Every
/// step that leaves the graph valid reports it, at iteration `base` plus
/// the step; an invalid graph with fewer violations than any kept before
/// becomes the best invalid one.
/// Record a graph met by a repair walk: an invalid one with fewer
/// violations than the best invalid graph kept becomes it; a valid one
/// (checked by a full recount) is reported. Gives back the violation count.
fn record_visit(graph: &AdjacencyMatrix, violations: u64, cfg: &CrossoverConfig, run: &mut CrossoverRun, iteration: u64) -> (r:
    u64)
    requires
        graph.wf(),
        2 <= graph.order() <= 63,
        violations == violation_count(graph@, graph.order() as int, cfg.k as nat, cfg.ell as nat),
        cfg.polish_max_steps + cfg.polish_tabu_tenure <= u32::MAX,
        old(run).inv(graph.order() as int, cfg.k as nat, cfg.ell as nat),
    ensures
        r == violations,
        final(run).inv(graph.order() as int, cfg.k as nat, cfg.ell as nat),
        pool_extends(old(run).pool@, final(run).pool@, graph.order() as int, cfg.k as nat, cfg.ell as nat),
        old(run).discoveries@.len() <= final(run).discoveries@.len(),
        violations == 0 ==> old(run).discoveries@.len() < final(run).discoveries@.len(),
        old(run).best_invalid is Some ==> final(run).best_invalid is Some,
        old(run).best_invalid is Some ==> final(run).best_invalid is Some && final(run).best_invalid->Some_0.1
            <= old(run).best_invalid->Some_0.1,
        violations > 0 && (old(run).best_invalid is None || violations < old(run).best_invalid->Some_0.1) ==> (final(run).best_invalid matches Some(b)
            && b.0@ == graph@ && b.1 == violations),
{
    let mut violations = violations;
    if violations > 0 {
        let better = match &run.best_invalid {
            Some(b) => violations < b.1,
            None => true,
        };
        if better {
            run.best_invalid = Some((graph.copy_of(), violations));
        }
    }
    if violations == 0 {
        let actual = count_violations(graph, cfg.k, cfg.ell);
        if actual == 0 {
            handle_valid(graph, cfg, run, iteration);
        } else {
            violations = actual;
        }
    }
    violations
}

#[verifier::rlimit(100)]
fn repair_offspring(
    e: &mut BeamEntry,
    all_edges: &Vec<(u32, u32)>,
    cfg: &CrossoverConfig,
    iters: u64,
    base: u64,
    run: &mut CrossoverRun,
    rng: &mut SmallRng,
)
    requires
        old(e).wf(),
        2 <= old(e).graph.order(),
        all_edges@.len() > 0,
        forall|i: int| 0 <= i < all_edges@.len() ==> (#[trigger] all_edges@[i]).0 < all_edges@[i].1 < old(e).graph.order(),
        base + iters <= u64::MAX,
        cfg.polish_max_steps + cfg.polish_tabu_tenure <= u32::MAX,
        old(run).inv(old(e).graph.order() as int, cfg.k as nat, cfg.ell as nat),
    ensures
        final(run).inv(old(e).graph.order() as int, cfg.k as nat, cfg.ell as nat),
        pool_extends(old(run).pool@, final(run).pool@, old(e).graph.order() as int, cfg.k as nat, cfg.ell as nat),
        old(run).discoveries@.len() <= final(run).discoveries@.len(),
        old(run).best_invalid is Some ==> final(run).best_invalid is Some,
        old(run).best_invalid is Some ==> final(run).best_invalid is Some && final(run).best_invalid->Some_0.1
            <= old(run).best_invalid->Some_0.1,
        final(e).wf(),
        final(e).graph.order() == old(e).graph.order(),
        exists|flips: Seq<(int, int)>|
            #![trigger toggle_all(old(e).graph@, flips)]
            flips.len() == iters && (forall|j: int|
                0 <= j < flips.len() ==> is_vertex_pair(old(e).graph.order() as int, #[trigger] flips[j]))
                && final(e).graph@ == toggle_all(old(e).graph@, flips),
        iters > 0 && violation_count(final(e).graph@, old(e).graph.order() as int, cfg.k as nat, cfg.ell as nat) == 0
            ==> old(run).discoveries@.len() < final(run).discoveries@.len(),
{
    let n = e.graph.n();
    let ghost nn = n as int;
    let k = cfg.k;
    let ell = cfg.ell;
    let ghost pool0 = run.pool@;
    let ghost found0 = run.discoveries@.len();
    let ghost had_invalid = run.best_invalid is Some;
    assert(n * n <= u32::MAX) by (nonlinear_arith)
        requires
            n <= 63,
    ;
    assert(n * (n - 1) <= 63 * 62) by (nonlinear_arith)
        requires
            n <= 63,
    ;
    let edge_count = (n * (n - 1) / 2) as usize;
    let mut tabu_until: Vec<u64> = Vec::new();
    let mut t: usize = 0;
    while t < edge_count
        invariant
            t <= edge_count,
            tabu_until@.len() == t,
        decreases edge_count - t,
    {
        tabu_until.push(0);
        t = t + 1;
    }
    let mut violations = count_violations(&e.graph, k, ell);
    let mut best_ever = violations;
    let ghost start_graph = e.graph@;
    let ghost invalid0 = run.best_invalid;
    let ghost mut flips: Seq<(int, int)> = Seq::empty();
    assert(toggle_all(start_graph, flips) == start_graph);
    let mut step: u64 = 0;
    while step < iters
        invariant
            step <= iters,
            base + iters <= u64::MAX,
            n == e.graph.order(),
            nn == n,
            2 <= n <= 63,
            n * n <= u32::MAX,
            k == cfg.k,
            ell == cfg.ell,
            e.wf(),
            all_edges@.len() > 0,
            forall|i: int| 0 <= i < all_edges@.len() ==> (#[trigger] all_edges@[i]).0 < all_edges@[i].1 < n,
            tabu_until@.len() == n * (n - 1) / 2,
            violations_are(*e, violations, k as nat, ell as nat),
            cfg.polish_max_steps + cfg.polish_tabu_tenure <= u32::MAX,
            run.inv(nn, k as nat, ell as nat),
            pool_extends(pool0, run.pool@, nn, k as nat, ell as nat),
            found0 <= run.discoveries@.len(),
            had_invalid ==> run.best_invalid is Some,
            invalid0 is Some ==> run.best_invalid is Some && run.best_invalid->Some_0.1 <= invalid0->Some_0.1,
            flips.len() == step,
            forall|j: int| 0 <= j < flips.len() ==> is_vertex_pair(nn, #[trigger] flips[j]),
            e.graph@ == toggle_all(start_graph, flips),
            step > 0 && violations == 0 ==> found0 < run.discoveries@.len(),
        decreases iters - step,
    {
        let iter = step + 1;
        if iter % 500 == 0 {
            violations = count_violations(&e.graph, k, ell);
        }
        let guilty = if violations <= 20 {
            focus_pairs(e, k, ell)
        } else {
            Vec::new()
        };
        let (free, aspiring) = if guilty.len() > 0 {
            best_moves(e, &guilty, &tabu_until, iter, violations, best_ever, k, ell)
        } else {
            best_moves(e, all_edges, &tabu_until, iter, violations, best_ever, k, ell)
        };
        let chosen: Move = match (aspiring, free) {
            (Some(asp), Some(reg)) => {
                if asp.2 < reg.2 {
                    asp
                } else {
                    reg
                }
            },
            (Some(asp), None) => asp,
            (None, Some(reg)) => reg,
            (None, None) => {
                let (u, v) = choose_pair(rng, all_edges.as_slice());
                proof {
                    let j = choose|j: int| 0 <= j < all_edges@.len() && all_edges@[j] == (u, v);
                    assert(all_edges@[j] == (u, v));
                    lemma_through_bounds(e.adj_nbrs.masks@, k as nat, u as int, v as int, true);
                    lemma_through_bounds(e.comp_nbrs.masks@, ell as nat, u as int, v as int, true);
                    lemma_through_bounds(e.comp_nbrs.masks@, ell as nat, u as int, v as int, false);
                }
                let (dk, de) = violation_delta(&e.adj_nbrs, &e.comp_nbrs, k, ell, u, v);
                (u, v, dk + de)
            },
        };
        let (u, v, delta) = chosen;
        proof {
            lemma_through_bounds(e.adj_nbrs.masks@, k as nat, u as int, v as int, true);
            lemma_through_bounds(e.comp_nbrs.masks@, ell as nat, u as int, v as int, true);
            lemma_through_bounds(e.comp_nbrs.masks@, ell as nat, u as int, v as int, false);
            lemma_entry_flip(*e, k as nat, ell as nat, u as int, v as int);
            lemma_cliques_of_small(
                crate::clique::graph_masks(toggle(e.graph@, ordered(u as int, v as int)), nn),
                k as nat,
                nn,
            );
            lemma_cliques_of_small(
                crate::clique::graph_masks(complement_edges(toggle(e.graph@, ordered(u as int, v as int)), nn), nn),
                ell as nat,
                nn,
            );
        }
        e.flip(u, v);
        proof {
            let p = (u as int, v as int);
            assert(flips.push(p).drop_last() =~= flips);
            flips = flips.push(p);
        }
        violations = if delta < 0 {
            violations - ((0 - delta) as u64)
        } else {
            violations + (delta as u64)
        };
        let eidx = edge_index(u, v, n);
        proof {
            crate::polish::lemma_pair_index_below(nn, u as int, v as int);
        }
        tabu_until.set(eidx, if iter <= u64::MAX - cfg.tabu_tenure {
            iter + cfg.tabu_tenure
        } else {
            u64::MAX
        });
        if violations < best_ever {
            best_ever = violations;
        }
        violations = record_visit(&e.graph, violations, cfg, run, base + iter);
        step = iter;
    }
}

/// The iterations a round of `num` offspring spends when `c` of them are
/// valid as made (one iteration each) and the others are repaired for
/// `max_iters / num` steps each.
pub open spec fn crossover_iterations(max_iters: int, num: int, c: int) -> int {
    c + (num - c) * (max_iters / if num >= 1 {
        num
    } else {
        1
    })
}

/// The pool after a round: the given pool's graphs first, in their places,
/// then valid graphs, at most `MAX_PARENT_POOL` in all.
pub open spec fn pool_after(before: Seq<AdjacencyMatrix>, after: Seq<AdjacencyMatrix>, n: int, k: nat, ell: nat) -> bool {
    &&& after.len() <= MAX_PARENT_POOL
    &&& after.len() >= if before.len() < MAX_PARENT_POOL {
        before.len() as int
    } else {
        MAX_PARENT_POOL as int
    }
    &&& forall|i: int| 0 <= i < after.len() ==> (#[trigger] after[i]).wf() && after[i].order() == n
    &&& forall|i: int| 0 <= i < after.len() && i < before.len() ==> after[i] == before[i]
    &&& forall|i: int| before.len() <= i < after.len() ==> violation_count((#[trigger] after[i])@, n, k, ell) == 0
}

/// How many of the graphs `offs` are valid.
pub open spec fn valid_count(offs: Seq<Set<(int, int)>>, n: int, k: nat, ell: nat) -> nat
    decreases offs.len(),
{
    if offs.len() == 0 {
        0
    } else {
        valid_count(offs.drop_last(), n, k, ell) + if violation_count(offs.last(), n, k, ell) == 0 {
            1nat
        } else {
            0nat
        }
    }
}

/// What every crossover round satisfies, given its parents `a` and `b`
/// and its offspring `offs`: the first parent is the seed (when given),
/// the second a pool graph (when the pool has any); each offspring takes
/// every pair on which the parents agree; a valid offspring costs one
/// iteration and is reported, any other a full share of repair steps.
pub open spec fn crossover_outcome(
    pool: Seq<AdjacencyMatrix>,
    init: Option<AdjacencyMatrix>,
    n: int,
    k: nat,
    ell: nat,
    max_iters: int,
    num: int,
    r: SearchResult,
    a: Set<(int, int)>,
    b: Set<(int, int)>,
    offs: Seq<Set<(int, int)>>,
) -> bool {
    &&& init matches Some(g) ==> a == g@
    &&& pool.len() > 0 ==> exists|j: int| 0 <= j < pool.len() && #[trigger] pool[j]@ == b
    &&& offs.len() == num
    &&& forall|i: int| 0 <= i < offs.len() ==> #[trigger] inherits(offs[i], a, b)
    &&& r.iterations_used == crossover_iterations(max_iters, num, valid_count(offs, n, k, ell) as int)
    &&& valid_count(offs, n, k, ell) > 0 ==> r.valid
}

impl CrossoverSearch {
    /// One crossover round. The first parent is `init_graph` (a random
    /// graph when there is none); the second is drawn from `pool`, or is
    /// the first with `perturb_flips` random flips when the pool is empty.
    /// Each of `num_offspring` offspring takes every pair from the first
    /// parent when a draw of `crossover` comes up true, from the second
    /// otherwise; a valid offspring is reported at once, any other is
    /// repaired for `max_iters / num_offspring` steps. Reported graphs are
    /// polished and kept as parents while the pool has room. Gives back the
    /// result (the best graph: the last valid one kept, else the invalid
    /// one with the fewest violations) and the pool for the next round.
    /// Of the graphs found, only those whose CID (`cid_of`, meant to name
    /// the isomorphism class) is not among `known_cids` nor that of an
    /// earlier one are handed back.
    pub fn search<F: Fn(&AdjacencyMatrix) -> GraphCid>(
        &self,
        n: u32,
        max_iters: u64,
        seed: u64,
        init_graph: Option<AdjacencyMatrix>,
        pool: Vec<AdjacencyMatrix>,
        crossover: &Bernoulli,
        cfg: &CrossoverConfig,
        known_cids: Vec<GraphCid>,
        cid_of: F,
    ) -> (r: (SearchResult, Vec<AdjacencyMatrix>))
        requires
            2 <= n <= 63,
            init_graph matches Some(g) ==> g.wf() && g.order() == n,
            forall|i: int| 0 <= i < pool@.len() ==> (#[trigger] pool@[i]).wf() && pool@[i].order() == n,
            cfg.polish_max_steps + cfg.polish_tabu_tenure <= u32::MAX,
            forall|g: &AdjacencyMatrix| g.wf() ==> #[trigger] cid_of.requires((g,)),
        ensures
            all_valid(r.0.discoveries@, n as int, cfg.k as nat, cfg.ell as nat),
            exists|found: Seq<RawDiscovery>, known1: Seq<GraphCid>, c: Seq<GraphCid>, pos: Seq<int>|
                #[trigger] kept_new(cid_of, found, known_cids@, known1, r.0.discoveries@, c, pos) && all_valid(
                    found,
                    n as int,
                    cfg.k as nat,
                    cfg.ell as nat,
                ) && (r.0.valid <==> found.len() > 0),
            r.0.valid ==> r.0.best_graph is Some,
            r.0.best_graph matches Some(g) ==> g.wf() && g.order() == n && (r.0.valid <==> violation_count(
                g@,
                n as int,
                cfg.k as nat,
                cfg.ell as nat,
            ) == 0),
            exists|c: int|
                0 <= c <= cfg.num_offspring && r.0.iterations_used == crossover_iterations(
                    max_iters as int,
                    cfg.num_offspring as int,
                    c,
                ),
            pool_after(pool@, r.1@, n as int, cfg.k as nat, cfg.ell as nat),
            exists|a: Set<(int, int)>, b: Set<(int, int)>, offs: Seq<Set<(int, int)>>|
                #[trigger] crossover_outcome(
                    pool@,
                    init_graph,
                    n as int,
                    cfg.k as nat,
                    cfg.ell as nat,
                    max_iters as int,
                    cfg.num_offspring as int,
                    r.0,
                    a,
                    b,
                    offs,
                ),
    {
        let k = cfg.k;
        let ell = cfg.ell;
        let mut rng = seeded_rng(seed);
        assert(n * (n - 1) <= 63 * 62) by (nonlinear_arith)
            requires
                n <= 63,
        ;
        let parent_a = match init_graph {
            Some(g) => g,
            None => random_graph(n, &mut rng),
        };
        let parent_b = if pool.len() > 0 {
            let mut positions: Vec<usize> = Vec::new();
            let mut p: usize = 0;
            while p < pool.len()
                invariant
                    p <= pool@.len(),
                    positions@.len() == p,
                    forall|j: int| 0 <= j < p ==> #[trigger] positions@[j] == j,
                decreases pool@.len() - p,
            {
                positions.push(p);
                p = p + 1;
            }
            let at = choose_position(&mut rng, positions.as_slice());
            proof {
                let j = choose|j: int| 0 <= j < positions@.len() && positions@[j] == at;
                assert(positions@[j] == at);
            }
            pool[at].copy_of()
        } else {
            let mut b = parent_a.copy_of();
            perturb(&mut b, cfg.perturb_flips, &mut rng);
            b
        };
        let all_edges = all_pairs_list(n);
        let num = cfg.num_offspring;
        let divisor: u64 = if num >= 1 {
            num as u64
        } else {
            1
        };
        let per_offspring = max_iters / divisor;
        assert(divisor * per_offspring <= max_iters) by (nonlinear_arith)
            requires
                divisor >= 1,
                per_offspring == max_iters / divisor,
        ;
        let ghost pool0 = pool@;
        let mut run = CrossoverRun { discoveries: Vec::new(), best_valid: None, best_invalid: None, pool };
        let mut total: u64 = 0;
        let ghost mut c: int = 0;
        let ghost mut offs: Seq<Set<(int, int)>> = Seq::empty();
        let mut idx: u32 = 0;
        while idx < num
            invariant
                offs.len() == idx,
                c == valid_count(offs, n as int, k as nat, ell as nat),
                forall|i: int| 0 <= i < offs.len() ==> #[trigger] inherits(offs[i], parent_a@, parent_b@),
                c > 0 ==> run.discoveries@.len() > 0,
                2 <= n <= 63,
                k == cfg.k,
                ell == cfg.ell,
                num == cfg.num_offspring,
                idx <= num,
                0 <= c <= idx,
                divisor == (if num >= 1 { num as u64 } else { 1u64 }),
                per_offspring == max_iters / divisor,
                divisor * per_offspring <= max_iters,
                total == c + (idx - c) * per_offspring,
                parent_a.wf(),
                parent_a.order() == n,
                parent_b.wf(),
                parent_b.order() == n,
                all_edges@.len() > 0,
                forall|i: int| 0 <= i < all_edges@.len() ==> (#[trigger] all_edges@[i]).0 < all_edges@[i].1 < n,
                cfg.polish_max_steps + cfg.polish_tabu_tenure <= u32::MAX,
                run.inv(n as int, k as nat, ell as nat),
                pool_extends(pool0, run.pool@, n as int, k as nat, ell as nat),
            decreases num - idx,
        {
            assert(total + per_offspring <= u64::MAX && total + 1 <= u64::MAX) by (nonlinear_arith)
                requires
                    total == c + (idx - c) * per_offspring,
                    0 <= c <= idx,
                    idx < num,
                    num <= divisor,
                    divisor * per_offspring <= max_iters,
                    max_iters <= u64::MAX,
                    num <= u32::MAX,
            ;
            let graph = make_offspring(&parent_a, &parent_b, crossover, &mut rng);
            let violations = count_violations(&graph, k, ell);
            let ghost before = total;
            proof {
                let o0 = offs;
                offs = offs.push(graph@);
                assert(offs.drop_last() =~= o0);
                assert forall|i: int| 0 <= i < offs.len() implies #[trigger] inherits(offs[i], parent_a@, parent_b@) by {
                    if i < o0.len() {
                        assert(offs[i] == o0[i]);
                    }
                }
            }
            if violations == 0 {
                handle_valid(&graph, cfg, &mut run, total);
                total = total + 1;
                proof {
                    c = c + 1;
                }
            } else {
                let mut e = BeamEntry::from_graph(graph, k, ell);
                repair_offspring(&mut e, &all_edges, cfg, per_offspring, total, &mut run, &mut rng);
                total = total + per_offspring;
                assert(total == c + (idx + 1 - c) * per_offspring) by (nonlinear_arith)
                    requires
                        before == c + (idx - c) * per_offspring,
                        total == before + per_offspring,
                ;
            }
            idx = idx + 1;
        }
        assert(total == crossover_iterations(max_iters as int, num as int, c));
        let ghost pa = parent_a@;
        let ghost pb = parent_b@;
        let CrossoverRun { discoveries, best_valid, best_invalid, pool: mut kept } = run;
        kept.truncate(MAX_PARENT_POOL);
        let valid = best_valid.is_some();
        let best_graph = match best_valid {
            Some(g) => Some(g),
            None => match best_invalid {
                Some(b) => Some(b.0),
                None => None,
            },
        };
        let mut known = known_cids;
        let kept_found = keep_new_discoveries(&discoveries, &mut known, &cid_of);
        let ghost kept_view = kept_found@;
        proof {
            let (c, pos) = choose|c: Seq<GraphCid>, pos: Seq<int>|
                #[trigger] kept_new(cid_of, discoveries@, known_cids@, known@, kept_found@, c, pos);
            lemma_kept_valid(cid_of, discoveries@, known_cids@, known@, kept_found@, c, pos, n as int, k as nat, ell as nat);
        }
        let r = SearchResult { best_graph, valid, iterations_used: total, discoveries: kept_found };
        assert(r.discoveries@ == kept_view);
        assert(crossover_outcome(
            pool0,
            init_graph,
            n as int,
            k as nat,
            ell as nat,
            max_iters as int,
            num as int,
            r,
            pa,
            pb,
            offs,
        ));
        (r, kept)
    }
}

} // verus!
