//! Template search state: a pool of equally good valid graphs, the
//! "backbone" of edges on which they all agree, and the "free" edges on
//! which they differ (whose `2^free` settings are then enumerated).

use vstd::prelude::*;

use crate::adjacency::{AdjacencyMatrix, size_fits};
use crate::clique::{NeighborSet, count_cliques, graph_cliques, lemma_clique_count_fits, low_bits};
use crate::engine::keep_newest;
use crate::guilty::pair_less;
use crate::histogram::complement_edges;
use crate::paley::{paley_candidate, paley_graph};
use crate::polish::{all_valid, count_violations, polish_walk, violation_count};
use crate::random::{random_coin, random_u64, seeded_rng};
use crate::search::{RawDiscovery, SearchResult};
use crate::types::GraphCid;
use rand::rngs::SmallRng;

verus! {

/// Template enumeration search.
pub struct TemplateSearch;

/// Most graphs the pool keeps.
pub const MAX_POOL: usize = 50;

/// State carried between rounds of the template search.
pub struct TemplateState {
    /// Valid graphs with the best 4-clique score, and that score.
    pub pool: Vec<(AdjacencyMatrix, u64)>,
    /// The best (lowest) `max(red_4, blue_4)` seen.
    pub best_4c: u64,
    /// The graph whose edges form the backbone.
    pub base: Option<AdjacencyMatrix>,
    /// The pairs on which the pool's graphs differ.
    pub free_edges: Vec<(u32, u32)>,
    /// Number of settings of the free edges (`u64::MAX` when there are more
    /// than 63).
    pub total: u64,
    /// Next setting to try.
    pub cursor: u64,
    /// Whether the template has been built from the pool.
    pub built: bool,
    /// CIDs already seen.
    pub known_cids: Vec<GraphCid>,
}

/// Some graph of the pool disagrees with the first on the pair `(u, v)`.
pub open spec fn pool_differs(pool: Seq<(AdjacencyMatrix, u64)>, u: int, v: int) -> bool {
    exists|i: int| 0 <= i < pool.len() && #[trigger] pool[i].0@.contains((u, v)) != pool[0].0@.contains((u, v))
}

/// `2^e` as a `u64`, saturating at `u64::MAX` beyond 63.
pub open spec fn settings_count(e: int) -> u64 {
    if e <= 63 {
        crate::clique::pow2(e as nat) as u64
    } else {
        u64::MAX
    }
}

/// A fresh state with the given known CIDs.
pub fn new_state(known_cids: Vec<GraphCid>) -> (s: TemplateState)
    ensures
        s.pool@.len() == 0,
        s.best_4c == u64::MAX,
        s.base is None,
        s.free_edges@.len() == 0,
        s.total == 0,
        s.cursor == 0,
        !s.built,
        s.known_cids@ == known_cids@,
{
    TemplateState {
        pool: Vec::new(),
        best_4c: u64::MAX,
        base: None,
        free_edges: Vec::new(),
        total: 0,
        cursor: 0,
        built: false,
        known_cids,
    }
}

/// `1 << e` is `2^e` for `e <= 63`.
proof fn lemma_shift_pow2(e: u64)
    requires
        e <= 63,
    ensures
        (1u64 << e) == crate::clique::pow2(e as nat),
    decreases e,
{
    if e == 0 {
        assert((1u64 << 0u64) == 1) by (bit_vector);
    } else {
        lemma_shift_pow2((e - 1) as u64);
        let f = (e - 1) as u64;
        assert(f < 63 ==> (1u64 << ((f + 1) as u64)) == 2 * (1u64 << f)) by (bit_vector);
    }
}

/// Record the backbone and the free edges of the pool: the pairs
/// `u < v < n` on which some pool graph disagrees with the first, in
/// row-major order.
pub fn build_template(state: &mut TemplateState, n: u32)
    requires
        old(state).pool@.len() > 0,
        forall|i: int| 0 <= i < old(state).pool@.len() ==> (#[trigger] old(state).pool@[i]).0.wf()
            && old(state).pool@[i].0.order() >= n,
    ensures
        final(state).pool@ == old(state).pool@,
        final(state).best_4c == old(state).best_4c,
        final(state).known_cids@ == old(state).known_cids@,
        final(state).base matches Some(b) && b.wf() && b@ == old(state).pool@[0].0@ && b.order() == old(state).pool@[0].0.order(),
        forall|i: int| 0 <= i < final(state).free_edges@.len() ==> #[trigger] final(state).free_edges@[i].0
            < final(state).free_edges@[i].1 && final(state).free_edges@[i].1 < n,
        forall|i: int, j: int|
            0 <= i < j < final(state).free_edges@.len() ==> pair_less(
                #[trigger] final(state).free_edges@[i],
                #[trigger] final(state).free_edges@[j],
            ),
        forall|u: u32, v: u32| #[trigger] final(state).free_edges@.contains((u, v)) <==> (u < v < n && pool_differs(
            old(state).pool@,
            u as int,
            v as int,
        )),
        final(state).total == settings_count(final(state).free_edges@.len() as int),
        final(state).cursor == 0,
        final(state).built,
{
    let ghost pool = state.pool@;
    let mut free_edges: Vec<(u32, u32)> = Vec::new();
    let mut u: u32 = 0;
    while u < n
        invariant
            u <= n,
            state.pool@ == pool,
            pool.len() > 0,
            forall|i: int| 0 <= i < pool.len() ==> (#[trigger] pool[i]).0.wf() && pool[i].0.order() >= n,
            forall|i: int| 0 <= i < free_edges@.len() ==> #[trigger] free_edges@[i].0 < free_edges@[i].1
                && free_edges@[i].1 < n && free_edges@[i].0 < u,
            forall|i: int, j: int| 0 <= i < j < free_edges@.len() ==> pair_less(#[trigger] free_edges@[i], #[trigger] free_edges@[j]),
            forall|a: u32, b: u32| #[trigger] free_edges@.contains((a, b)) <==> (a < b < n && a < u && pool_differs(
                pool,
                a as int,
                b as int,
            )),
        decreases n - u,
    {
        let mut v: u32 = u + 1;
        while v < n
            invariant
                u < n,
                u + 1 <= v <= n,
                state.pool@ == pool,
                pool.len() > 0,
                forall|i: int| 0 <= i < pool.len() ==> (#[trigger] pool[i]).0.wf() && pool[i].0.order() >= n,
                forall|i: int| 0 <= i < free_edges@.len() ==> #[trigger] free_edges@[i].0 < free_edges@[i].1
                    && free_edges@[i].1 < n && (free_edges@[i].0 < u || (free_edges@[i].0 == u && free_edges@[i].1
                    < v)),
                forall|i: int, j: int| 0 <= i < j < free_edges@.len() ==> pair_less(#[trigger] free_edges@[i], #[trigger] free_edges@[j]),
                forall|a: u32, b: u32| #[trigger] free_edges@.contains((a, b)) <==> (a < b < n && (a < u || (a == u
                    && b < v)) && pool_differs(pool, a as int, b as int)),
            decreases n - v,
        {
            let base_val = state.pool[0].0.edge(u, v);
            let mut all_same = true;
            let mut i: usize = 0;
            while i < state.pool.len()
                invariant
                    u < v < n,
                    i <= pool.len(),
                    state.pool@ == pool,
                    pool.len() > 0,
                    forall|i: int| 0 <= i < pool.len() ==> (#[trigger] pool[i]).0.wf() && pool[i].0.order() >= n,
                    base_val == pool[0].0@.contains((u as int, v as int)),
                    all_same <==> forall|j: int| 0 <= j < i ==> #[trigger] pool[j].0@.contains((u as int, v as int))
                        == base_val,
                decreases pool.len() - i,
            {
                if state.pool[i].0.edge(u, v) != base_val {
                    all_same = false;
                }
                i = i + 1;
            }
            let ghost f0 = free_edges@;
            if !all_same {
                free_edges.push((u, v));
            }
            proof {
                assert forall|a: u32, b: u32| #[trigger] free_edges@.contains((a, b)) <==> (a < b < n && (a < u || (a
                    == u && b < v + 1)) && pool_differs(pool, a as int, b as int)) by {
                    if free_edges@.contains((a, b)) && (a, b) != (u, v) {
                        let k = choose|k: int| 0 <= k < free_edges@.len() && free_edges@[k] == (a, b);
                        assert(f0[k] == (a, b));
                        assert(f0.contains((a, b)));
                    }
                    if a < b < n && (a < u || (a == u && b < v + 1)) && pool_differs(pool, a as int, b as int) {
                        if (a, b) == (u, v) {
                            let k = choose|k: int|
                                0 <= k < pool.len() && #[trigger] pool[k].0@.contains((a as int, b as int))
                                    != pool[0].0@.contains((a as int, b as int));
                            assert(!all_same);
                            assert(free_edges@[f0.len() as int] == (a, b));
                        } else {
                            assert(f0.contains((a, b)));
                            let k = choose|k: int| 0 <= k < f0.len() && f0[k] == (a, b);
                            assert(free_edges@[k] == (a, b));
                        }
                    }
                    if (a, b) == (u, v) && free_edges@.contains((a, b)) {
                        if all_same {
                            let k = choose|k: int| 0 <= k < free_edges@.len() && free_edges@[k] == (a, b);
                            assert(f0[k] == (a, b));
                        }
                    }
                }
            }
            v = v + 1;
        }
        u = u + 1;
    }
    let num_free = free_edges.len();
    let total = if num_free <= 63 {
        proof {
            lemma_shift_pow2(num_free as u64);
        }
        1u64 << (num_free as u64)
    } else {
        u64::MAX
    };
    let base = state.pool[0].0.copy_of();
    state.base = Some(base);
    state.free_edges = free_edges;
    state.total = total;
    state.cursor = 0;
    state.built = true;
}

/// `c` occurs among `cids`.
pub open spec fn cid_known(cids: Seq<GraphCid>, c: GraphCid) -> bool {
    exists|i: int| 0 <= i < cids.len() && #[trigger] cids[i].0@ == c.0@
}

/// Whether two CIDs have the same bytes.
pub fn cid_eq(a: &GraphCid, b: &GraphCid) -> (r: bool)
    ensures
        r == (a.0@ == b.0@),
{
    let mut i: usize = 0;
    while i < 32
        invariant
            0 <= i <= 32,
            forall|j: int| 0 <= j < i ==> a.0@[j] == b.0@[j],
        decreases 32 - i,
    {
        if a.0[i] != b.0[i] {
            return false;
        }
        i = i + 1;
    }
    assert(a.0@ =~= b.0@);
    true
}

/// Whether `cid` occurs among `cids`.
pub fn contains_cid(cids: &Vec<GraphCid>, cid: &GraphCid) -> (r: bool)
    ensures
        r == cid_known(cids@, *cid),
{
    let mut i: usize = 0;
    while i < cids.len()
        invariant
            i <= cids@.len(),
            forall|j: int| 0 <= j < i ==> #[trigger] cids@[j].0@ != cid.0@,
        decreases cids@.len() - i,
    {
        if cid_eq(&cids[i], cid) {
            return true;
        }
        i = i + 1;
    }
    false
}

/// The larger of two counts.
fn max_u64(a: u64, b: u64) -> (r: u64)
    ensures
        r == if a >= b {
            a
        } else {
            b
        },
{
    if a >= b {
        a
    } else {
        b
    }
}

/// The 4-clique score of a graph: the larger of its 4-clique count and its
/// complement's.
pub open spec fn four_clique_score(edges: Set<(int, int)>, n: int) -> int {
    let r = graph_cliques(edges, n, 4);
    let b = graph_cliques(complement_edges(edges, n), n, 4);
    if r >= b {
        r as int
    } else {
        b as int
    }
}

/// The 4-clique score of a graph is the larger of its two 4-clique counts:
/// at least each, and equal to one of them.
pub proof fn lemma_four_clique_score_is_larger(edges: Set<(int, int)>, n: int)
    ensures
        four_clique_score(edges, n) >= graph_cliques(edges, n, 4),
        four_clique_score(edges, n) >= graph_cliques(complement_edges(edges, n), n, 4),
        four_clique_score(edges, n) == graph_cliques(edges, n, 4) || four_clique_score(edges, n) == graph_cliques(
            complement_edges(edges, n),
            n,
            4,
        ),
{
}

/// Offer a seed graph, whose canonical form has the CID `cid`, to the pool:
/// it must be valid for `(k, ell)` and no worse than the pool's 4-clique
/// score; a strictly better one empties the pool and unbuilds the template
/// first. A seed whose CID is already known is not added; otherwise its CID
/// is recorded and, while the pool has room, the graph joins it.
pub fn accumulate_seed(graph: &AdjacencyMatrix, k: u32, ell: u32, n: u32, state: &mut TemplateState, cid: GraphCid)
    requires
        graph.wf(),
        graph.order() == n,
        n <= 63,
    ensures
        ({
            let valid = graph_cliques(graph@, n as int, k as nat) == 0 && graph_cliques(
                complement_edges(graph@, n as int),
                n as int,
                ell as nat,
            ) == 0;
            let m = four_clique_score(graph@, n as int);
            let reset = valid && m < old(state).best_4c;
            let known = cid_known(old(state).known_cids@, cid);
            &&& !valid || m > old(state).best_4c ==> final(state).pool@ == old(state).pool@ && final(state).best_4c
                == old(state).best_4c && final(state).known_cids@ == old(state).known_cids@ && final(state).built
                == old(state).built && final(state).cursor == old(state).cursor
            &&& !reset ==> final(state).base == old(state).base && final(state).free_edges@ == old(state).free_edges@
                && final(state).total == old(state).total
            &&& reset ==> final(state).best_4c == m && !final(state).built && final(state).cursor == 0 && final(state).base is None && final(state).free_edges@.len() == 0
            &&& valid && m == old(state).best_4c ==> final(state).best_4c == old(state).best_4c && final(state).built == old(state).built && final(state).cursor == old(state).cursor
            &&& valid && m <= old(state).best_4c ==> {
                let before = if reset {
                    Seq::<(AdjacencyMatrix, u64)>::empty()
                } else {
                    old(state).pool@
                };
                &&& known ==> final(state).pool@ == before && final(state).known_cids@ == old(state).known_cids@
                &&& !known ==> final(state).known_cids@ == old(state).known_cids@.push(cid)
                &&& !known && before.len() < MAX_POOL ==> final(state).pool@.len() == before.len() + 1 && final(state).pool@.take(before.len() as int) == before && final(state).pool@.last().0@ == graph@ && final(state).pool@.last().0.wf() && final(state).pool@.last().0.order() == n && final(state).pool@.last().1
                    == m
                &&& !known && before.len() >= MAX_POOL ==> final(state).pool@ == before
            }
            &&& valid && m <= old(state).best_4c && !known && (if reset {
                0
            } else {
                old(state).pool@.len() as int
            }) < MAX_POOL ==> {
                let s = final(state).pool@.last().1 as int;
                &&& s >= graph_cliques(graph@, n as int, 4)
                &&& s >= graph_cliques(complement_edges(graph@, n as int), n as int, 4)
                &&& (s == graph_cliques(graph@, n as int, 4) || s == graph_cliques(
                    complement_edges(graph@, n as int),
                    n as int,
                    4,
                ))
            }
            &&& reset ==> {
                let s = final(state).best_4c as int;
                &&& s >= graph_cliques(graph@, n as int, 4)
                &&& s >= graph_cliques(complement_edges(graph@, n as int), n as int, 4)
                &&& (s == graph_cliques(graph@, n as int, 4) || s == graph_cliques(
                    complement_edges(graph@, n as int),
                    n as int,
                    4,
                ))
            }
        }),
{
    proof {
        lemma_four_clique_score_is_larger(graph@, n as int);
    }
    let adj_nbrs = NeighborSet::from_adj(graph);
    let comp = graph.complement();
    let comp_nbrs = NeighborSet::from_adj(&comp);
    let ghost cm = complement_edges(graph@, n as int);
    let kc = count_cliques(&adj_nbrs, k, n);
    let ei = count_cliques(&comp_nbrs, ell, n);
    proof {
        lemma_clique_count_fits(adj_nbrs.masks@, low_bits(n as int), k as nat);
        lemma_clique_count_fits(comp_nbrs.masks@, low_bits(n as int), ell as nat);
        lemma_clique_count_fits(adj_nbrs.masks@, low_bits(n as int), 4);
        lemma_clique_count_fits(comp_nbrs.masks@, low_bits(n as int), 4);
    }
    if kc > 0 || ei > 0 {
        return;
    }
    let red_4 = count_cliques(&adj_nbrs, 4, n);
    let blue_4 = count_cliques(&comp_nbrs, 4, n);
    let max_4c = max_u64(red_4, blue_4);
    if max_4c > state.best_4c {
        return;
    }
    if max_4c < state.best_4c {
        state.pool.clear();
        state.best_4c = max_4c;
        state.built = false;
        state.cursor = 0;
        state.base = None;
        state.free_edges.clear();
    }
    if contains_cid(&state.known_cids, &cid) {
        return;
    }
    state.known_cids.push(cid);
    if state.pool.len() < MAX_POOL {
        let copy = graph.copy_of();
        state.pool.push((copy, max_4c));
    }
}

/// The parameters of a template round.
pub struct TemplateConfig {
    /// Clique size to avoid in the graph.
    pub k: u32,
    /// Clique size to avoid in the complement.
    pub ell: u32,
    /// Pool size at which the template is built.
    pub pool_size: usize,
    /// Steps of each polish walk (zero: no polishing).
    pub polish_max_steps: u32,
    /// Steps a pair stays tabu while polishing.
    pub polish_tabu_tenure: u32,
}

impl TemplateConfig {
    /// The parameters a round uses when none are given.
    pub fn defaults() -> (r: Self)
        ensures
            r.k == 5,
            r.ell == 5,
            r.pool_size == 3,
            r.polish_max_steps == 100,
            r.polish_tabu_tenure == 25,
    {
        TemplateConfig { k: 5, ell: 5, pool_size: 3, polish_max_steps: 100, polish_tabu_tenure: 25 }
    }
}

/// Most polish walks per round.
pub const MAX_TEMPLATE_POLISH: u32 = 20;

/// Up to this many free edges the settings are tried in order, resuming
/// where the last round stopped; beyond it they are drawn at random.
pub const MAX_EXHAUSTIVE_FREE: usize = 25;

/// Known CIDs beyond this many are thinned out ...
pub const MAX_KNOWN_CIDS: usize = 50000;

/// ... down to this many, the oldest dropped first.
pub const KEPT_KNOWN_CIDS: usize = 40000;

impl TemplateState {
    /// The pool holds valid graphs on `n` vertices; the backbone is the
    /// pool's first graph; the free edges are pairs of vertices; a built
    /// template has a backbone and counts the settings of its free edges.
    pub open spec fn ready(&self, n: int, k: nat, ell: nat) -> bool {
        &&& forall|i: int|
            0 <= i < self.pool@.len() ==> (#[trigger] self.pool@[i]).0.wf() && self.pool@[i].0.order() == n
                && violation_count(self.pool@[i].0@, n, k, ell) == 0
        &&& self.base matches Some(b) ==> b.wf() && b.order() == n && self.pool@.len() > 0 && b@ == self.pool@[0].0@
        &&& forall|i: int| 0 <= i < self.free_edges@.len() ==> (#[trigger] self.free_edges@[i]).0 < self.free_edges@[i].1 < n
        &&& sorted_free(self.free_edges@)
        &&& self.built ==> self.base is Some
    }
}

/// The `j`-th free edge as a pair of vertices.
pub open spec fn pair_at(free: Seq<(u32, u32)>, j: int) -> (int, int) {
    (free[j].0 as int, free[j].1 as int)
}

/// The backbone with its first `m` free edges set from `bits`: the `j`-th
/// present exactly when bit `j` is set.
pub open spec fn setting_upto(base: Set<(int, int)>, free: Seq<(u32, u32)>, bits: u64, m: int) -> Set<(int, int)> {
    Set::new(
        |p: (int, int)|
            if exists|j: int| 0 <= j < m && #[trigger] pair_at(free, j) == p {
                let j = choose|j: int| 0 <= j < m && #[trigger] pair_at(free, j) == p;
                j < 64 && (bits >> (j as u64)) & 1 == 1
            } else {
                base.contains(p)
            },
    )
}

/// The backbone with every free edge set from `bits`.
pub open spec fn setting_edges(base: Set<(int, int)>, free: Seq<(u32, u32)>, bits: u64) -> Set<(int, int)> {
    setting_upto(base, free, bits, free.len() as int)
}

/// The free edges are listed in increasing order (so each once).
pub open spec fn sorted_free(free: Seq<(u32, u32)>) -> bool {
    forall|i: int, j: int| 0 <= i < j < free.len() ==> pair_less(#[trigger] free[i], #[trigger] free[j])
}

/// Set each free edge of `candidate`: the `j`-th to bit `j` of `bits` for
/// the first 64, by a fair coin for the others.
fn apply_bits(candidate: &mut AdjacencyMatrix, free: &Vec<(u32, u32)>, bits: u64, rng: &mut SmallRng)
    requires
        old(candidate).wf(),
        forall|i: int| 0 <= i < free@.len() ==> (#[trigger] free@[i]).0 < free@[i].1 < old(candidate).order(),
        sorted_free(free@),
    ensures
        final(candidate).wf(),
        final(candidate).order() == old(candidate).order(),
        free@.len() <= 64 ==> final(candidate)@ == setting_edges(old(candidate)@, free@, bits),
{
    let ghost base = candidate@;
    let mut j: usize = 0;
    while j < free.len()
        invariant
            j <= free@.len(),
            candidate.wf(),
            candidate.order() == old(candidate).order(),
            forall|i: int| 0 <= i < free@.len() ==> (#[trigger] free@[i]).0 < free@[i].1 < candidate.order(),
            sorted_free(free@),
            j <= 64 ==> candidate@ == setting_upto(base, free@, bits, j as int),
        decreases free@.len() - j,
    {
        let (u, v) = free[j];
        let value = if j < 64 {
            (bits >> (j as u64)) & 1 == 1
        } else {
            random_coin(rng)
        };
        let ghost before = candidate@;
        candidate.set_edge(u, v, value);
        proof {
            if j < 64 {
                let next = setting_upto(base, free@, bits, j + 1);
                assert forall|p: (int, int)| #[trigger] candidate@.contains(p) == next.contains(p) by {
                    let q = pair_at(free@, j as int);
                    if p == q {
                        assert(pair_at(free@, j as int) == p);
                        let c = choose|c: int| 0 <= c < j + 1 && #[trigger] pair_at(free@, c) == p;
                        if c != j {
                            assert(pair_less(free@[c], free@[j as int]));
                        }
                    } else {
                        if exists|c: int| 0 <= c < j + 1 && #[trigger] pair_at(free@, c) == p {
                            let c1 = choose|c: int| 0 <= c < j + 1 && #[trigger] pair_at(free@, c) == p;
                            assert(c1 < j);
                            assert(exists|c: int| 0 <= c < j && #[trigger] pair_at(free@, c) == p);
                            let c0 = choose|c: int| 0 <= c < j && #[trigger] pair_at(free@, c) == p;
                            if c0 < c1 {
                                assert(pair_less(free@[c0], free@[c1]));
                            } else if c1 < c0 {
                                assert(pair_less(free@[c1], free@[c0]));
                            }
                        } else {
                            assert(!exists|c: int| 0 <= c < j && #[trigger] pair_at(free@, c) == p) by {
                                if exists|c: int| 0 <= c < j && #[trigger] pair_at(free@, c) == p {
                                    let c = choose|c: int| 0 <= c < j && #[trigger] pair_at(free@, c) == p;
                                    assert(pair_at(free@, c) == p);
                                }
                            }
                        }
                    }
                }
                assert(candidate@ =~= next);
            }
        }
        j = j + 1;
    }
}

/// Each setting `b` in `lo..hi` of the free edges on the backbone that is
/// valid is among the discoveries.
pub open spec fn settings_reported(
    d: Seq<RawDiscovery>,
    base: Set<(int, int)>,
    free: Seq<(u32, u32)>,
    lo: int,
    hi: int,
    n: int,
    k: nat,
    ell: nat,
) -> bool {
    forall|b: u64|
        lo <= b < hi && violation_count(#[trigger] setting_edges(base, free, b), n, k, ell) == 0 ==> exists|j: int|
            0 <= j < d.len() && d[j].graph@ == setting_edges(base, free, b)
}

impl TemplateSearch {
    /// One template round. The seed (a graph with its canonical CID), when
    /// given, is offered to the pool; once the pool holds `pool_size`
    /// graphs the template is built. A built template with free edges then
    /// tries up to `max_iters` settings of them on the backbone: in order
    /// from where the last round stopped when there are at most
    /// `MAX_EXHAUSTIVE_FREE` free edges, at random otherwise. Every valid
    /// setting is reported (at its index in the round) and the first
    /// `MAX_TEMPLATE_POLISH` are polished. The best graph is the backbone,
    /// else the pool's first graph, else the seed, else the Paley graph;
    /// the round is valid when the pool is not empty.
    pub fn search(
        &self,
        n: u32,
        max_iters: u64,
        seed: u64,
        init: Option<(AdjacencyMatrix, GraphCid)>,
        state: TemplateState,
        cfg: &TemplateConfig,
    ) -> (r: (SearchResult, TemplateState))
        requires
            1 <= n <= 63,
            cfg.pool_size >= 1,
            init matches Some(s) ==> s.0.wf() && s.0.order() == n,
            state.ready(n as int, cfg.k as nat, cfg.ell as nat),
            init is None && state.pool@.len() == 0 ==> exists|q: int|
                (if n >= 5 {
                    n as int
                } else {
                    5
                }) <= q <= u32::MAX && #[trigger] paley_candidate(q),
            cfg.polish_max_steps + cfg.polish_tabu_tenure <= u32::MAX,
        ensures
            r.1.ready(n as int, cfg.k as nat, cfg.ell as nat),
            all_valid(r.0.discoveries@, n as int, cfg.k as nat, cfg.ell as nat),
            r.0.valid <==> r.1.pool@.len() > 0,
            r.0.iterations_used == max_iters,
            r.0.best_graph matches Some(g) && g.wf() && g.order() == n,
            r.0.valid ==> r.0.best_graph->Some_0@ == r.1.pool@[0].0@,
            init is None ==> r.1.pool@ == state.pool@ && r.1.best_4c == state.best_4c && r.1.built == (state.built
                || state.pool@.len() >= cfg.pool_size),
            init is None && state.built ==> r.1.base == state.base && r.1.free_edges@ == state.free_edges@
                && r.1.total == state.total && r.1.cursor == if 0 < state.free_edges@.len() <= MAX_EXHAUSTIVE_FREE {
                state.cursor + if max_iters <= state.total - state.cursor {
                    max_iters as int
                } else if state.cursor <= state.total {
                    state.total - state.cursor
                } else {
                    0
                }
            } else {
                state.cursor as int
            },
            init is None && state.built && 0 < state.free_edges@.len() <= MAX_EXHAUSTIVE_FREE ==> settings_reported(
                r.0.discoveries@,
                state.base->Some_0@,
                state.free_edges@,
                state.cursor as int,
                r.1.cursor as int,
                n as int,
                cfg.k as nat,
                cfg.ell as nat,
            ),
    {
        let k = cfg.k;
        let ell = cfg.ell;
        let mut rng = seeded_rng(seed);
        assert(size_fits(n as int)) by (nonlinear_arith)
            requires
                1 <= n <= 63,
        ;
        let mut state = state;
        let ghost start = state;
        match &init {
            Some(s) => {
                accumulate_seed(&s.0, k, ell, n, &mut state, s.1);
                proof {
                    assert forall|i: int| 0 <= i < state.pool@.len() implies (#[trigger] state.pool@[i]).0.wf()
                        && state.pool@[i].0.order() == n && violation_count(state.pool@[i].0@, n as int, k as nat, ell as nat) == 0 by {
                        if i < start.pool@.len() && start.pool@.len() <= state.pool@.len() && state.pool@.take(start.pool@.len() as int) == start.pool@ {
                            assert(state.pool@.take(start.pool@.len() as int)[i] == state.pool@[i]);
                        }
                    }
                }
            },
            None => {},
        }
        assert(state.ready(n as int, k as nat, ell as nat));
        if !state.built && state.pool.len() >= cfg.pool_size {
            build_template(&mut state, n);
        }
        assert(state.ready(n as int, k as nat, ell as nat));
        let mut discoveries: Vec<RawDiscovery> = Vec::new();
        if state.built && state.free_edges.len() > 0 {
            let base = match &state.base {
                Some(b) => b.copy_of(),
                None => AdjacencyMatrix::new(n),
            };
            let exhaustive = state.free_edges.len() <= MAX_EXHAUSTIVE_FREE;
            let to_eval = if exhaustive {
                let left = if state.cursor <= state.total {
                    state.total - state.cursor
                } else {
                    0
                };
                if max_iters <= left {
                    max_iters
                } else {
                    left
                }
            } else {
                max_iters
            };
            let mut polished: u32 = 0;
            let mut i: u64 = 0;
            while i < to_eval
                invariant
                    i <= to_eval,
                    1 <= n <= 63,
                    k == cfg.k,
                    ell == cfg.ell,
                    base.wf(),
                    base.order() == n,
                    exhaustive ==> state.cursor + to_eval <= u64::MAX,
                    state.ready(n as int, k as nat, ell as nat),
                    cfg.polish_max_steps + cfg.polish_tabu_tenure <= u32::MAX,
                    all_valid(discoveries@, n as int, k as nat, ell as nat),
                    exhaustive == (state.free_edges@.len() <= MAX_EXHAUSTIVE_FREE),
                    state.base matches Some(b) && base@ == b@,
                    exhaustive ==> settings_reported(
                        discoveries@,
                        base@,
                        state.free_edges@,
                        state.cursor as int,
                        state.cursor + i,
                        n as int,
                        k as nat,
                        ell as nat,
                    ),
                decreases to_eval - i,
            {
                let bits = if exhaustive {
                    state.cursor + i
                } else {
                    random_u64(&mut rng)
                };
                let mut candidate = base.copy_of();
                apply_bits(&mut candidate, &state.free_edges, bits, &mut rng);
                let violations = count_violations(&candidate, k, ell);
                let ghost reported = discoveries@;
                if violations == 0 {
                    let ghost before = discoveries@;
                    discoveries.push(RawDiscovery { graph: candidate.copy_of(), iteration: i });
                    assert(discoveries@[before.len() as int].graph@ == candidate@);
                    proof {
                        assert forall|j: int| 0 <= j < discoveries@.len() implies (#[trigger] discoveries@[j]).graph.wf()
                            && discoveries@[j].graph.order() == n && violation_count(discoveries@[j].graph@, n as int, k as nat, ell as nat) == 0 by {
                            if j < before.len() {
                                assert(discoveries@[j] == before[j]);
                            }
                        }
                    }
                    if polished < MAX_TEMPLATE_POLISH && cfg.polish_max_steps > 0 {
                        let ghost mid = discoveries@;
                        let _ = polish_walk(
                            &candidate,
                            k,
                            ell,
                            cfg.polish_max_steps,
                            cfg.polish_tabu_tenure,
                            &mut discoveries,
                            i,
                        );
                        proof {
                            assert forall|j: int| 0 <= j < discoveries@.len() implies (#[trigger] discoveries@[j]).graph.wf()
                                && discoveries@[j].graph.order() == n && violation_count(discoveries@[j].graph@, n as int, k as nat, ell as nat) == 0 by {
                                if j < mid.len() {
                                    assert(discoveries@.take(mid.len() as int)[j] == discoveries@[j]);
                                }
                            }
                        }
                        polished = polished + 1;
                    }
                }
                proof {
                    if exhaustive {
                        let d = discoveries@;
                        assert forall|b: u64|
                            state.cursor <= b < state.cursor + i + 1 && violation_count(
                                #[trigger] setting_edges(base@, state.free_edges@, b),
                                n as int,
                                k as nat,
                                ell as nat,
                            ) == 0 implies exists|j: int|
                            0 <= j < d.len() && d[j].graph@ == setting_edges(base@, state.free_edges@, b) by {
                            if b < state.cursor + i {
                                let j = choose|j: int|
                                    0 <= j < reported.len() && reported[j].graph@ == setting_edges(base@, state.free_edges@, b);
                                assert(d.take(reported.len() as int) == reported || d == reported);
                                if d != reported {
                                    assert(d.take(reported.len() as int)[j] == d[j]);
                                }
                                assert(d[j].graph@ == setting_edges(base@, state.free_edges@, b));
                            } else {
                                assert(b == bits);
                                assert(d[reported.len() as int].graph@ == candidate@);
                            }
                        }
                    }
                }
                i = i + 1;
            }
            if exhaustive {
                state.cursor = state.cursor + to_eval;
            }
        }
        let best = match &state.base {
            Some(b) => b.copy_of(),
            None => if state.pool.len() > 0 {
                state.pool[0].0.copy_of()
            } else {
                match &init {
                    Some(s) => s.0.copy_of(),
                    None => paley_graph(n),
                }
            },
        };
        let valid = state.pool.len() > 0;
        let mut cids: Vec<GraphCid> = Vec::new();
        std::mem::swap(&mut cids, &mut state.known_cids);
        state.known_cids = keep_newest(cids, MAX_KNOWN_CIDS, KEPT_KNOWN_CIDS);
        (SearchResult { best_graph: Some(best), valid, iterations_used: max_iters, discoveries }, state)
    }
}

} // verus!
