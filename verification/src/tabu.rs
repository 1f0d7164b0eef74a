//! Tabu search: a single trajectory of flips, each the best free move or
//! a tabu move that beats the best violation count seen (aspiration);
//! valid graphs met are reported and polished, and the walk goes on.

use vstd::prelude::*;

use crate::adjacency::{AdjacencyMatrix, ordered};
use crate::clique::{lemma_cliques_of_small, lemma_through_bounds, violation_delta};
use crate::construct::violations_are;
use crate::crossover::{Move, best_moves, focus_pairs, move_aspires, move_delta, move_free};
use crate::adjacency::pair_index;
use crate::guilty::guilty_pairs;
use crate::gradient::{all_pairs_list, lemma_entry_flip};
use crate::histogram::complement_edges;
use crate::polish::{all_valid, count_violations, edge_index, lemma_kept_valid, polish_walk, violation_count};
use crate::random::{choose_pair, random_graph, seeded_rng, toggle};
use crate::search::{RawDiscovery, SearchResult, TabuSearch, keep_new_discoveries, kept_new};
use crate::types::GraphCid;
use crate::tree2::BeamEntry;
use rand::rngs::SmallRng;
use crate::beam::copy_pairs;

verus! {

/// The parameters of a tabu search.
pub struct TabuConfig {
    /// Clique size to avoid in the graph.
    pub k: u32,
    /// Clique size to avoid in the complement.
    pub ell: u32,
    /// Steps a flipped pair stays tabu.
    pub tabu_tenure: u64,
    /// Whether to flip only pairs lying in a violation (all pairs when
    /// there are none).
    pub focused: bool,
    /// Steps of the polish walk run on each valid graph (zero: none).
    pub polish_rounds: u32,
    /// Steps a pair stays tabu while polishing.
    pub polish_tabu_tenure: u32,
}

impl TabuConfig {
    /// The parameters a search uses when none are given.
    pub fn defaults() -> (r: Self)
        ensures
            r.k == 5,
            r.ell == 5,
            r.tabu_tenure == 50,
            !r.focused,
            r.polish_rounds == 3,
            r.polish_tabu_tenure == 25,
    {
        TabuConfig { k: 5, ell: 5, tabu_tenure: 50, focused: false, polish_rounds: 3, polish_tabu_tenure: 25 }
    }
}

/// What a tabu search has found so far.
struct TabuRun {
    discoveries: Vec<RawDiscovery>,
    best_valid: Option<AdjacencyMatrix>,
    best_invalid: (AdjacencyMatrix, u64),
}

impl TabuRun {
    /// The discoveries and the best valid graph are valid, a valid graph is
    /// known exactly when one was reported, and the best invalid graph
    /// carries its violation count.
    spec fn inv(&self, n: int, k: nat, ell: nat) -> bool {
        &&& all_valid(self.discoveries@, n, k, ell)
        &&& self.best_valid matches Some(g) ==> g.wf() && g.order() == n && violation_count(g@, n, k, ell) == 0
        &&& (self.best_valid is Some <==> self.discoveries@.len() > 0)
        &&& self.best_invalid.0.wf()
        &&& self.best_invalid.0.order() == n
        &&& self.best_invalid.1 == violation_count(self.best_invalid.0@, n, k, ell)
    }
}

/// Report a valid graph found at `iteration`, make it the best valid one,
/// then polish it and keep the polished graph as the best when the walk
/// gives one.
fn report(graph: &AdjacencyMatrix, cfg: &TabuConfig, run: &mut TabuRun, iteration: u64)
    requires
        graph.wf(),
        1 <= graph.order() <= 63,
        violation_count(graph@, graph.order() as int, cfg.k as nat, cfg.ell as nat) == 0,
        cfg.polish_rounds + cfg.polish_tabu_tenure <= u32::MAX,
        old(run).inv(graph.order() as int, cfg.k as nat, cfg.ell as nat),
    ensures
        final(run).inv(graph.order() as int, cfg.k as nat, cfg.ell as nat),
        final(run).best_invalid == old(run).best_invalid,
        final(run).discoveries@.len() > old(run).discoveries@.len(),
{
    let ghost n = graph.order() as int;
    let ghost before = run.discoveries@;
    run.discoveries.push(RawDiscovery { graph: graph.copy_of(), iteration });
    proof {
        let d = run.discoveries@;
        assert forall|j: int| 0 <= j < d.len() implies (#[trigger] d[j]).graph.wf() && d[j].graph.order() == n
            && violation_count(d[j].graph@, n, cfg.k as nat, cfg.ell as nat) == 0 by {
            if j < before.len() {
                assert(d[j] == before[j]);
            }
        }
    }
    run.best_valid = Some(graph.copy_of());
    if cfg.polish_rounds > 0 {
        let ghost mid = run.discoveries@;
        let polished = polish_walk(
            graph,
            cfg.k,
            cfg.ell,
            cfg.polish_rounds,
            cfg.polish_tabu_tenure,
            &mut run.discoveries,
            iteration,
        );
        proof {
            let d = run.discoveries@;
            assert forall|j: int| 0 <= j < d.len() implies (#[trigger] d[j]).graph.wf() && d[j].graph.order() == n
                && violation_count(d[j].graph@, n, cfg.k as nat, cfg.ell as nat) == 0 by {
                if j < mid.len() {
                    assert(d.take(mid.len() as int)[j] == d[j]);
                }
            }
        }
        if let Some(p) = polished {
            run.best_valid = Some(p);
        }
    }
}

/// The violation count of an entry's graph.
pub open spec fn entry_violations(e: BeamEntry, k: nat, ell: nat) -> nat {
    violation_count(e.graph@, e.graph.order() as int, k, ell)
}

/// The candidate pairs of a step: when focused and the graph has
/// violations, the pairs lying in one (if there is any); else all pairs.
pub open spec fn tabu_cands(e: BeamEntry, focused: bool, k: nat, ell: nat, cands: Seq<(u32, u32)>) -> bool {
    let n = e.graph.order() as int;
    let g = guilty_pairs(e.adj_nbrs.masks@, e.comp_nbrs.masks@, k, ell, n);
    &&& forall|i: int| 0 <= i < cands.len() ==> (#[trigger] cands[i]).0 < cands[i].1 < n
    &&& if focused && entry_violations(e, k, ell) > 0 && exists|x: u32, y: u32| #[trigger] g.contains((x as int, y as int)) {
        forall|x: u32, y: u32| #[trigger] cands.contains((x, y)) <==> g.contains((x as int, y as int))
    } else {
        forall|x: u32, y: u32| #[trigger] cands.contains((x, y)) <==> x < y < n
    }
}

/// The pair a tabu step flips: the better of the best free candidate and
/// the best aspiring one (the aspiring one only when strictly better), any
/// pair when there is neither.
pub open spec fn tabu_pick(
    e: BeamEntry,
    cands: Seq<(u32, u32)>,
    tabu: Seq<u64>,
    iter: u64,
    best_ever: u64,
    k: nat,
    ell: nat,
    p: (u32, u32),
) -> bool {
    let n = e.graph.order() as int;
    let v = entry_violations(e, k, ell) as u64;
    let free_ex = exists|i: int| 0 <= i < cands.len() && move_free(tabu, n, #[trigger] cands[i], iter);
    let asp_ex = exists|i: int| 0 <= i < cands.len() && move_aspires(e, k, ell, #[trigger] cands[i], v, best_ever);
    if !free_ex && !asp_ex {
        p.0 < p.1 < n
    } else {
        &&& cands.contains(p)
        &&& {
            ||| move_aspires(e, k, ell, p, v, best_ever) && (forall|i: int|
                0 <= i < cands.len() && move_aspires(e, k, ell, #[trigger] cands[i], v, best_ever) ==> move_delta(
                    e,
                    k,
                    ell,
                    p,
                ) <= move_delta(e, k, ell, cands[i])) && (forall|i: int|
                0 <= i < cands.len() && move_free(tabu, n, #[trigger] cands[i], iter) ==> move_delta(e, k, ell, p)
                    < move_delta(e, k, ell, cands[i]))
            ||| move_free(tabu, n, p, iter) && (forall|i: int|
                0 <= i < cands.len() && move_free(tabu, n, #[trigger] cands[i], iter) ==> move_delta(e, k, ell, p)
                    <= move_delta(e, k, ell, cands[i])) && (forall|i: int|
                0 <= i < cands.len() && move_aspires(e, k, ell, #[trigger] cands[i], v, best_ever) ==> move_delta(
                    e,
                    k,
                    ell,
                    p,
                ) <= move_delta(e, k, ell, cands[i]))
        }
    }
}

/// The step at which a pair flipped at step `iter` becomes free again.
pub open spec fn tabu_release(iter: u64, tenure: u64) -> u64 {
    if iter <= u64::MAX - tenure {
        (iter + tenure) as u64
    } else {
        u64::MAX
    }
}

/// A pair flipped at step `iter` is released `tenure` steps later: at
/// `iter + tenure`, or at the last step when that sum does not fit.
pub proof fn lemma_tabu_release(iter: u64, tenure: u64)
    ensures
        iter as int + tenure as int <= u64::MAX ==> tabu_release(iter, tenure) as int == iter as int + tenure as int,
        iter as int + tenure as int > u64::MAX ==> tabu_release(iter, tenure) == u64::MAX,
{
}

/// After a tabu step at `iter`, the flipped pair is held: it is not free at
/// any step from `iter` up to, not including, `iter + tabu_tenure`, and it
/// is free again from then on; every other pair keeps its release step.
pub proof fn lemma_tabu_step_holds_pair(
    cfg: TabuConfig,
    iter: u64,
    e0: BeamEntry,
    t0: Seq<u64>,
    b0: u64,
    cands: Seq<(u32, u32)>,
    p: (u32, u32),
    e1: BeamEntry,
    t1: Seq<u64>,
    b1: u64,
    s: u64,
)
    requires
        tabu_step(cfg, iter, e0, t0, b0, cands, p, e1, t1, b1),
        0 <= pair_index(e0.graph.order() as int, p.0 as int, p.1 as int) < t0.len(),
    ensures
        iter as int + cfg.tabu_tenure as int <= u64::MAX ==> t1[pair_index(e0.graph.order() as int, p.0 as int, p.1 as int)] as int
            == iter as int + cfg.tabu_tenure as int,
        iter <= s && s < u64::MAX && (s as int) < iter as int + cfg.tabu_tenure as int ==> !move_free(t1, e0.graph.order() as int, p, s),
        iter as int + cfg.tabu_tenure as int <= s ==> move_free(t1, e0.graph.order() as int, p, s),
        forall|q: int| 0 <= q < t0.len() && q != pair_index(e0.graph.order() as int, p.0 as int, p.1 as int) ==> #[trigger] t1[q] == t0[q],
{
    lemma_tabu_release(iter, cfg.tabu_tenure);
}

/// One tabu step, number `iter`: from entry `e0` with tabu list `t0` and
/// best count `b0` to `e1`, `t1`, `b1`, flipping `p` chosen among `cands`.
pub open spec fn tabu_step(
    cfg: TabuConfig,
    iter: u64,
    e0: BeamEntry,
    t0: Seq<u64>,
    b0: u64,
    cands: Seq<(u32, u32)>,
    p: (u32, u32),
    e1: BeamEntry,
    t1: Seq<u64>,
    b1: u64,
) -> bool {
    let k = cfg.k as nat;
    let ell = cfg.ell as nat;
    let n = e0.graph.order() as int;
    &&& tabu_cands(e0, cfg.focused, k, ell, cands)
    &&& tabu_pick(e0, cands, t0, iter, b0, k, ell, p)
    &&& e1.wf()
    &&& e1.graph.order() == e0.graph.order()
    &&& e1.graph@ == toggle(e0.graph@, ordered(p.0 as int, p.1 as int))
    &&& t1 == t0.update(pair_index(n, p.0 as int, p.1 as int), tabu_release(iter, cfg.tabu_tenure))
    &&& b1 == if entry_violations(e1, k, ell) < b0 {
        entry_violations(e1, k, ell) as u64
    } else {
        b0
    }
}

/// What every tabu search satisfies: `es` are the entries it stood on, one
/// step per iteration from the start (`init`, when given), with tabu lists
/// `ts`, best counts `bs`, candidates `cs` and flipped pairs `ps`; when
/// nothing valid was found, no graph of the walk is valid and the best
/// graph is one of the walk with the fewest violations.
pub open spec fn tabu_outcome(
    cfg: TabuConfig,
    n: int,
    init: Option<AdjacencyMatrix>,
    r: SearchResult,
    es: Seq<BeamEntry>,
    ts: Seq<Seq<u64>>,
    bs: Seq<u64>,
    cs: Seq<Seq<(u32, u32)>>,
    ps: Seq<(u32, u32)>,
) -> bool {
    let k = cfg.k as nat;
    let ell = cfg.ell as nat;
    &&& es.len() == r.iterations_used + 1
    &&& ts.len() == es.len() && bs.len() == es.len() && cs.len() == r.iterations_used && ps.len() == r.iterations_used
    &&& es[0].wf() && es[0].graph.order() == n
    &&& init matches Some(g) ==> es[0].graph@ == g@
    &&& ts[0] == Seq::new((n * (n - 1) / 2) as nat, |i: int| 0u64)
    &&& bs[0] == entry_violations(es[0], k, ell)
    &&& forall|i: int|
        0 <= i < r.iterations_used ==> #[trigger] tabu_step(
            cfg,
            (i + 1) as u64,
            es[i],
            ts[i],
            bs[i],
            cs[i],
            ps[i],
            es[i + 1],
            ts[i + 1],
            bs[i + 1],
        )
    &&& !r.valid ==> {
        &&& forall|i: int| 0 <= i < es.len() ==> entry_violations(#[trigger] es[i], k, ell) > 0
        &&& exists|j: int| 0 <= j < es.len() && #[trigger] es[j].graph@ == r.best_graph->Some_0@
        &&& forall|i: int|
            0 <= i < es.len() ==> violation_count(r.best_graph->Some_0@, n, k, ell) <= entry_violations(
                #[trigger] es[i],
                k,
                ell,
            )
    }
}

/// The candidate pairs of a tabu step: when focused and the graph has
/// violations, the pairs lying in one, if any; else all pairs.
fn tabu_candidates(e: &BeamEntry, focused: bool, violations: u64, all_edges: &Vec<(u32, u32)>, k: u32, ell: u32) -> (r:
    Vec<(u32, u32)>)
    requires
        e.wf(),
        violations_are(*e, violations, k as nat, ell as nat),
        forall|a: u32, b: u32| #[trigger] all_edges@.contains((a, b)) <==> a < b < e.graph.order(),
        forall|i: int| 0 <= i < all_edges@.len() ==> (#[trigger] all_edges@[i]).0 < all_edges@[i].1 < e.graph.order(),
    ensures
        tabu_cands(*e, focused, k as nat, ell as nat, r@),
{
    let ghost g = guilty_pairs(e.adj_nbrs.masks@, e.comp_nbrs.masks@, k as nat, ell as nat, e.graph.order() as int);
    if focused && violations > 0 {
        let guilty = focus_pairs(e, k, ell);
        if guilty.len() > 0 {
            proof {
                let p = guilty@[0];
                assert(guilty@.contains(p));
                assert(guilty@.contains((p.0, p.1)));
                assert(g.contains((p.0 as int, p.1 as int)));
            }
            return guilty;
        }
        proof {
            assert forall|x: u32, y: u32| !g.contains((x as int, y as int)) by {
                if g.contains((x as int, y as int)) {
                    assert(guilty@.contains((x, y)));
                }
            }
        }
    }
    copy_pairs(all_edges)
}

/// The move a tabu step makes among `cands`: the better of the best free
/// and the best aspiring candidate (the aspiring one only when strictly
/// better), a random pair when there is neither; with its delta.
fn pick_tabu_move(
    e: &BeamEntry,
    cands: &Vec<(u32, u32)>,
    all_edges: &Vec<(u32, u32)>,
    tabu_until: &Vec<u64>,
    iter: u64,
    violations: u64,
    best_ever: u64,
    k: u32,
    ell: u32,
    rng: &mut SmallRng,
) -> (m: Move)
    requires
        e.wf(),
        forall|i: int| 0 <= i < cands@.len() ==> (#[trigger] cands@[i]).0 < cands@[i].1 < e.graph.order(),
        forall|a: u32, b: u32| #[trigger] all_edges@.contains((a, b)) <==> a < b < e.graph.order(),
        all_edges@.len() > 0,
        tabu_until@.len() == e.graph.order() * (e.graph.order() - 1) / 2,
        violations_are(*e, violations, k as nat, ell as nat),
    ensures
        m.0 < m.1 < e.graph.order(),
        m.2 == move_delta(*e, k as nat, ell as nat, (m.0, m.1)),
        tabu_pick(*e, cands@, tabu_until@, iter, best_ever, k as nat, ell as nat, (m.0, m.1)),
{
    let (free, aspiring) = best_moves(e, cands, tabu_until, iter, violations, best_ever, k, ell);
    match (aspiring, free) {
        (Some(asp), Some(reg)) => {
            if asp.2 < reg.2 {
                asp
            } else {
                reg
            }
        },
        (Some(asp), None) => asp,
        (None, Some(reg)) => reg,
        (None, None) => {
            let (u, v) = choose_pair(rng, all_edges.as_slice());
            proof {
                lemma_through_bounds(e.adj_nbrs.masks@, k as nat, u as int, v as int, true);
                lemma_through_bounds(e.comp_nbrs.masks@, ell as nat, u as int, v as int, true);
                lemma_through_bounds(e.comp_nbrs.masks@, ell as nat, u as int, v as int, false);
            }
            let (dk, de) = violation_delta(&e.adj_nbrs, &e.comp_nbrs, k, ell, u, v);
            (u, v, dk + de)
        },
    }
}

impl TabuSearch {
    /// Tabu search from `init_graph` (a random graph when there is none),
    /// for `max_iters` steps. Each step flips the better of the best free
    /// move and the best aspiring move (one whose flip would beat the
    /// lowest violation count seen; it wins only when strictly better), a
    /// random pair when there is neither; the candidates are the pairs
    /// lying in a violation when focused and some are left (all pairs
    /// otherwise). A flipped pair stays tabu for `tabu_tenure` steps. A
    /// valid start and every step that leaves the graph valid are reported
    /// and polished. The best graph is the last valid one kept, else the
    /// invalid graph with the fewest violations met. Of the graphs found
    /// (`found`), only those whose CID (`cid_of`, meant to name the
    /// isomorphism class) is not among `known_cids` nor that of an earlier
    /// one are handed back.
    #[verifier::rlimit(50)]
    pub fn search<F: Fn(&AdjacencyMatrix) -> GraphCid>(
        &self,
        n: u32,
        max_iters: u64,
        seed: u64,
        init_graph: Option<AdjacencyMatrix>,
        cfg: &TabuConfig,
        known_cids: Vec<GraphCid>,
        cid_of: F,
    ) -> (r: SearchResult)
        requires
            2 <= n <= 63,
            init_graph matches Some(g) ==> g.wf() && g.order() == n,
            cfg.polish_rounds + cfg.polish_tabu_tenure <= u32::MAX,
            forall|g: &AdjacencyMatrix| g.wf() ==> #[trigger] cid_of.requires((g,)),
        ensures
            r.iterations_used == max_iters,
            all_valid(r.discoveries@, n as int, cfg.k as nat, cfg.ell as nat),
            r.best_graph matches Some(g) && g.wf() && g.order() == n,
            r.valid ==> violation_count(r.best_graph->Some_0@, n as int, cfg.k as nat, cfg.ell as nat) == 0,
            !r.valid ==> violation_count(r.best_graph->Some_0@, n as int, cfg.k as nat, cfg.ell as nat) > 0,
            !r.valid && init_graph is Some ==> violation_count(
                r.best_graph->Some_0@,
                n as int,
                cfg.k as nat,
                cfg.ell as nat,
            ) <= violation_count(init_graph->Some_0@, n as int, cfg.k as nat, cfg.ell as nat),
            exists|found: SearchResult, es: Seq<BeamEntry>, ts: Seq<Seq<u64>>, bs: Seq<u64>, cs: Seq<Seq<(u32, u32)>>, ps: Seq<(u32, u32)>|
                #[trigger] tabu_outcome(*cfg, n as int, init_graph, found, es, ts, bs, cs, ps) && found.best_graph == r.best_graph
                    && found.valid == r.valid && found.iterations_used == r.iterations_used && (r.valid
                    <==> found.discoveries@.len() > 0) && exists|known1: Seq<GraphCid>, c: Seq<GraphCid>, pos: Seq<int>|
                    #[trigger] kept_new(cid_of, found.discoveries@, known_cids@, known1, r.discoveries@, c, pos),
    {
        let k = cfg.k;
        let ell = cfg.ell;
        let mut rng = seeded_rng(seed);
        assert(n * (n - 1) <= 63 * 62) by (nonlinear_arith)
            requires
                n <= 63,
        ;
        assert(n * n <= u32::MAX) by (nonlinear_arith)
            requires
                n <= 63,
        ;
        let all_edges = all_pairs_list(n);
        let start = match init_graph {
            Some(g) => g,
            None => random_graph(n, &mut rng),
        };
        let ghost start_count = violation_count(start@, n as int, k as nat, ell as nat);
        let mut e = BeamEntry::from_graph(start, k, ell);
        let mut violations = e.violations;
        let edge_count = (n * (n - 1) / 2) as usize;
        let mut tabu_until: Vec<u64> = Vec::new();
        let mut t: usize = 0;
        while t < edge_count
            invariant
                t <= edge_count,
                tabu_until@.len() == t,
                forall|j: int| 0 <= j < t ==> tabu_until@[j] == 0,
            decreases edge_count - t,
        {
            tabu_until.push(0);
            t = t + 1;
        }
        assert(tabu_until@ =~= Seq::new((n * (n - 1) / 2) as nat, |i: int| 0u64));
        let mut best_ever = violations;
        let mut run = TabuRun {
            discoveries: Vec::new(),
            best_valid: None,
            best_invalid: (e.graph.copy_of(), violations),
        };
        if violations == 0 {
            report(&e.graph, cfg, &mut run, 0);
        }
        let mut iter: u64 = 0;
        let ghost mut es: Seq<BeamEntry> = seq![e];
        let ghost mut ts: Seq<Seq<u64>> = seq![tabu_until@];
        let ghost mut bs: Seq<u64> = seq![best_ever];
        let ghost mut cs: Seq<Seq<(u32, u32)>> = Seq::empty();
        let ghost mut ps: Seq<(u32, u32)> = Seq::empty();
        let ghost mut best_at: int = 0;
        let ghost e0 = e;
        let ghost t0 = tabu_until@;
        while iter < max_iters
            invariant
                iter <= max_iters,
                es.len() == iter + 1,
                ts.len() == es.len() && bs.len() == es.len() && cs.len() == iter && ps.len() == iter,
                es[0] == e0,
                ts[0] == t0,
                bs[0] == entry_violations(e0, k as nat, ell as nat),
                es[iter as int] == e,
                ts[iter as int] == tabu_until@,
                bs[iter as int] == best_ever,
                forall|i: int|
                    0 <= i < iter ==> #[trigger] tabu_step(
                        *cfg,
                        (i + 1) as u64,
                        es[i],
                        ts[i],
                        bs[i],
                        cs[i],
                        ps[i],
                        es[i + 1],
                        ts[i + 1],
                        bs[i + 1],
                    ),
                run.best_valid is None ==> forall|i: int| 0 <= i < es.len() ==> entry_violations(#[trigger] es[i], k as nat, ell as nat) > 0,
                0 <= best_at < es.len(),
                es[best_at].graph@ == run.best_invalid.0@,
                forall|i: int| 0 <= i < es.len() && entry_violations(#[trigger] es[i], k as nat, ell as nat) > 0 ==> run.best_invalid.1 <= entry_violations(es[i], k as nat, ell as nat),
                forall|a: u32, b: u32| #[trigger] all_edges@.contains((a, b)) <==> a < b < n,
                2 <= n <= 63,
                n * n <= u32::MAX,
                n == e.graph.order(),
                k == cfg.k,
                ell == cfg.ell,
                e.wf(),
                all_edges@.len() > 0,
                forall|i: int| 0 <= i < all_edges@.len() ==> (#[trigger] all_edges@[i]).0 < all_edges@[i].1 < n,
                tabu_until@.len() == n * (n - 1) / 2,
                violations_are(e, violations, k as nat, ell as nat),
                cfg.polish_rounds + cfg.polish_tabu_tenure <= u32::MAX,
                run.inv(n as int, k as nat, ell as nat),
                run.best_valid is None ==> run.best_invalid.1 > 0,
                run.best_invalid.1 <= start_count,
            decreases max_iters - iter,
        {
            iter = iter + 1;
            if iter % 500 == 0 {
                violations = count_violations(&e.graph, k, ell);
            }
            let cands = tabu_candidates(&e, cfg.focused, violations, &all_edges, k, ell);
            let chosen = pick_tabu_move(
                &e,
                &cands,
                &all_edges,
                &tabu_until,
                iter,
                violations,
                best_ever,
                k,
                ell,
                &mut rng,
            );
            let ghost e_before = e;
            let ghost t_before = tabu_until@;
            let ghost b_before = best_ever;
            let (u, v, delta) = chosen;
            proof {
                lemma_through_bounds(e.adj_nbrs.masks@, k as nat, u as int, v as int, true);
                lemma_through_bounds(e.comp_nbrs.masks@, ell as nat, u as int, v as int, true);
                lemma_through_bounds(e.comp_nbrs.masks@, ell as nat, u as int, v as int, false);
                lemma_entry_flip(e, k as nat, ell as nat, u as int, v as int);
                lemma_cliques_of_small(
                    crate::clique::graph_masks(toggle(e.graph@, ordered(u as int, v as int)), n as int),
                    k as nat,
                    n as int,
                );
                lemma_cliques_of_small(
                    crate::clique::graph_masks(
                        complement_edges(toggle(e.graph@, ordered(u as int, v as int)), n as int),
                        n as int,
                    ),
                    ell as nat,
                    n as int,
                );
            }
            e.flip(u, v);
            violations = if delta < 0 {
                violations - ((0 - delta) as u64)
            } else {
                violations + (delta as u64)
            };
            let eidx = edge_index(u, v, n);
            proof {
                crate::polish::lemma_pair_index_below(n as int, u as int, v as int);
            }
            tabu_until.set(eidx, if iter <= u64::MAX - cfg.tabu_tenure {
                iter + cfg.tabu_tenure
            } else {
                u64::MAX
            });
            if violations < best_ever {
                best_ever = violations;
            }
            if violations > 0 && violations < run.best_invalid.1 {
                run.best_invalid = (e.graph.copy_of(), violations);
            }
            proof {
                if violations > 0 && run.best_invalid.0@ == e.graph@ {
                    best_at = iter as int;
                }
            }
            if violations == 0 {
                let actual = count_violations(&e.graph, k, ell);
                if actual == 0 {
                    report(&e.graph, cfg, &mut run, iter);
                } else {
                    violations = actual;
                }
            }
            proof {
                let es0 = es;
                let ts0 = ts;
                let bs0 = bs;
                let cs0 = cs;
                let ps0 = ps;
                es = es.push(e);
                ts = ts.push(tabu_until@);
                bs = bs.push(best_ever);
                cs = cs.push(cands@);
                ps = ps.push((u, v));
                assert(tabu_step(*cfg, iter, e_before, t_before, b_before, cands@, (u, v), e, tabu_until@, best_ever));
                assert forall|i: int|
                    0 <= i < iter implies #[trigger] tabu_step(
                        *cfg,
                        (i + 1) as u64,
                        es[i],
                        ts[i],
                        bs[i],
                        cs[i],
                        ps[i],
                        es[i + 1],
                        ts[i + 1],
                        bs[i + 1],
                    ) by {
                    if i < iter - 1 {
                        assert(es[i] == es0[i] && es[i + 1] == es0[i + 1]);
                        assert(ts[i] == ts0[i] && ts[i + 1] == ts0[i + 1]);
                        assert(bs[i] == bs0[i] && bs[i + 1] == bs0[i + 1]);
                        assert(cs[i] == cs0[i] && ps[i] == ps0[i]);
                    }
                }
            }
        }
        let TabuRun { discoveries, best_valid, best_invalid } = run;
        let valid = best_valid.is_some();
        let best = match best_valid {
            Some(g) => g,
            None => best_invalid.0,
        };
        let found = SearchResult { best_graph: Some(best), valid, iterations_used: max_iters, discoveries };
        assert(tabu_outcome(*cfg, n as int, init_graph, found, es, ts, bs, cs, ps));
        let ghost g0 = found;
        let SearchResult { best_graph, valid, iterations_used, discoveries } = found;
        let mut known = known_cids;
        let kept = keep_new_discoveries(&discoveries, &mut known, &cid_of);
        let ghost kept_view = kept@;
        proof {
            let (c, pos) = choose|c: Seq<GraphCid>, pos: Seq<int>|
                #[trigger] kept_new(cid_of, discoveries@, known_cids@, known@, kept@, c, pos);
            lemma_kept_valid(cid_of, discoveries@, known_cids@, known@, kept@, c, pos, n as int, cfg.k as nat, cfg.ell as nat);
        }
        let r = SearchResult { best_graph, valid, iterations_used, discoveries: kept };
        proof {
            assert(r.discoveries@ == kept_view);
            assert(g0.discoveries@ == discoveries@);
            assert(tabu_outcome(*cfg, n as int, init_graph, g0, es, ts, bs, cs, ps));
        }
        r
    }
}

} // verus!
