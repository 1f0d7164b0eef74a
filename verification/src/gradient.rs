//! Gradient descent: from the seed graph, perturbed after the first trial,
//! a greedy descent on the `(max, min)` 4-clique counts, then a greedy
//! repair of the violations, both with tabu lists; every valid result is
//! reported and polished.

use rand::rngs::SmallRng;
use vstd::prelude::*;

use crate::adjacency::{AdjacencyMatrix, is_vertex_pair, ordered, pair_index};
use crate::clique::{blue_delta, count_cliques, graph_cliques, lemma_cliques_of_small, lemma_small_clique_totals, lemma_through_bounds, red_delta, violation_delta};
use crate::exchange::{lemma_flip_changes_cliques, lemma_flip_changes_complement_cliques};
use crate::histogram::complement_edges;
use crate::polish::{Findings, all_valid, count_violations, edge_index, violation_count};
use crate::random::{random_graph, random_usize_in, seeded_rng, toggle, toggle_all};
use crate::polish::lemma_kept_valid;
use crate::search::{GradientDescent, RawDiscovery, SearchResult, keep_new_discoveries, kept_new};
use crate::types::GraphCid;
use crate::tree2::BeamEntry;

verus! {

/// The parameters of a gradient-descent round.
pub struct GradientConfig {
    /// Steps of the 4-clique descent per trial.
    pub descent_steps: u32,
    /// Steps of the violation repair per trial.
    pub repair_steps: u32,
    /// Steps a flipped pair stays tabu.
    pub tabu_tenure: u32,
    /// Random flips applied to the seed before each trial after the first.
    pub perturb_flips: u32,
    /// Steps of each polish walk (zero: no polishing).
    pub polish_max_steps: u32,
    /// Steps a pair stays tabu while polishing.
    pub polish_tabu_tenure: u32,
    /// Clique size to avoid in the graph.
    pub k: u32,
    /// Clique size to avoid in the complement.
    pub ell: u32,
}

impl GradientConfig {
    /// The parameters a round uses when none are given.
    pub fn defaults() -> (r: Self)
        ensures
            r.descent_steps == 200,
            r.repair_steps == 5000,
            r.tabu_tenure == 25,
            r.perturb_flips == 5,
            r.polish_max_steps == 100,
            r.polish_tabu_tenure == 25,
            r.k == 5,
            r.ell == 5,
    {
        GradientConfig {
            descent_steps: 200,
            repair_steps: 5000,
            tabu_tenure: 25,
            perturb_flips: 5,
            polish_max_steps: 100,
            polish_tabu_tenure: 25,
            k: 5,
            ell: 5,
        }
    }
}

/// Most polish walks per round.
pub const MAX_GRADIENT_POLISH: u32 = 10;

/// Flipping a pair of an entry changes its clique counts, and its
/// complement's, by exactly the deltas of its masks.
pub(crate) proof fn lemma_entry_flip(e: BeamEntry, k: nat, ell: nat, u: int, v: int)
    requires
        e.wf(),
        0 <= u < v < e.graph.order(),
    ensures
        graph_cliques(toggle(e.graph@, ordered(u, v)), e.graph.order() as int, k) == graph_cliques(
            e.graph@,
            e.graph.order() as int,
            k,
        ) + red_delta(e.adj_nbrs.masks@, k, u, v),
        graph_cliques(
            complement_edges(toggle(e.graph@, ordered(u, v)), e.graph.order() as int),
            e.graph.order() as int,
            ell,
        ) == graph_cliques(complement_edges(e.graph@, e.graph.order() as int), e.graph.order() as int, ell)
            + blue_delta(e.adj_nbrs.masks@, e.comp_nbrs.masks@, ell, u, v),
{
    lemma_flip_changes_cliques(e.graph@, e.graph.order() as int, k, u, v);
    lemma_flip_changes_complement_cliques(e.graph@, e.graph.order() as int, ell, u, v);
}

/// Lexicographic `a < b` on tiers.
pub open spec fn tier_less(a: (i64, i64), b: (i64, i64)) -> bool {
    a.0 < b.0 || (a.0 == b.0 && a.1 < b.1)
}

fn tier_lt(a: (i64, i64), b: (i64, i64)) -> (r: bool)
    ensures
        r == tier_less(a, b),
{
    a.0 < b.0 || (a.0 == b.0 && a.1 < b.1)
}

/// `(max, min)` of two counts.
fn tier_of(a: i64, b: i64) -> (r: (i64, i64))
    ensures
        r.0 == (if a >= b { a } else { b }),
        r.1 == (if a >= b { b } else { a }),
{
    if a >= b {
        (a, b)
    } else {
        (b, a)
    }
}

/// The pairs not tabu at `step` and the tabu list's size.
pub open spec fn tabu_fits(tabu_until: Seq<u32>, n: int) -> bool {
    tabu_until.len() == n * (n - 1) / 2
}

/// The `(max, min)` 4-clique tier after flipping `{u, v}`, each count
/// taken as zero if it would go below.
pub open spec fn descent_tier(e: BeamEntry, red_4: u64, blue_4: u64, u: int, v: int) -> (i64, i64) {
    let r = red_4 + red_delta(e.adj_nbrs.masks@, 4, u, v);
    let b = blue_4 + blue_delta(e.adj_nbrs.masks@, e.comp_nbrs.masks@, 4, u, v);
    let nr = if r >= 0 {
        r
    } else {
        0
    };
    let nb = if b >= 0 {
        b
    } else {
        0
    };
    if nr >= nb {
        (nr as i64, nb as i64)
    } else {
        (nb as i64, nr as i64)
    }
}

/// The non-tabu pair whose flip gives the lowest `(max, min)` 4-clique
/// tier, the first found winning ties, with its two 4-clique deltas; none
/// exactly when every pair is tabu.
fn best_descent_flip(e: &BeamEntry, red_4: u64, blue_4: u64, tabu_until: &Vec<u32>, step: u32) -> (r: Option<
    (u32, u32, i64, i64),
>)
    requires
        e.wf(),
        red_4 <= 15752961,
        blue_4 <= 15752961,
        tabu_fits(tabu_until@, e.graph.order() as int),
    ensures
        r matches Some(m) ==> m.0 < m.1 < e.graph.order() && m.2 == red_delta(e.adj_nbrs.masks@, 4, m.0 as int, m.1 as int)
            && m.3 == blue_delta(e.adj_nbrs.masks@, e.comp_nbrs.masks@, 4, m.0 as int, m.1 as int),
        r is None <==> !some_pair_free(tabu_until@, e.graph.order() as int, step),
        r matches Some(m) ==> pair_free(tabu_until@, e.graph.order() as int, m.0 as int, m.1 as int, step)
            && forall|a: int, b: int|
            0 <= a < b < e.graph.order() && #[trigger] pair_free(tabu_until@, e.graph.order() as int, a, b, step)
                ==> !tier_less(descent_tier(*e, red_4, blue_4, a, b), descent_tier(*e, red_4, blue_4, m.0 as int, m.1 as int)),
{
    let n = e.graph.n();
    let ghost nn = n as int;
    let mut best_edge: Option<(u32, u32, i64, i64)> = None;
    let mut best_tier: (i64, i64) = (i64::MAX, i64::MAX);
    assert(n * n <= u32::MAX) by (nonlinear_arith)
        requires
            n <= 63,
    ;
    let mut u: u32 = 0;
    while u < n
        invariant
            u <= n,
            n == e.graph.order(),
            nn == n,
            n * n <= u32::MAX,
            e.wf(),
            red_4 <= 15752961,
            blue_4 <= 15752961,
            tabu_fits(tabu_until@, n as int),
            best_edge matches Some(m) ==> m.0 < m.1 < n && m.2 == red_delta(e.adj_nbrs.masks@, 4, m.0 as int, m.1 as int)
                && m.3 == blue_delta(e.adj_nbrs.masks@, e.comp_nbrs.masks@, 4, m.0 as int, m.1 as int)
                && best_tier == descent_tier(*e, red_4, blue_4, m.0 as int, m.1 as int)
                && pair_free(tabu_until@, nn, m.0 as int, m.1 as int, step),
            best_edge is None ==> best_tier == (i64::MAX, i64::MAX),
            best_edge is None <==> !exists|a: int, b: int|
                0 <= a < b < n && a < u && #[trigger] pair_free(tabu_until@, nn, a, b, step),
            forall|a: int, b: int|
                0 <= a < b < n && a < u && #[trigger] pair_free(tabu_until@, nn, a, b, step) ==> !tier_less(
                    descent_tier(*e, red_4, blue_4, a, b),
                    best_tier,
                ),
        decreases n - u,
    {
        let mut v: u32 = u + 1;
        while v < n
            invariant
                u < n,
                u + 1 <= v <= n,
                n == e.graph.order(),
                nn == n,
                n * n <= u32::MAX,
                e.wf(),
                red_4 <= 15752961,
                blue_4 <= 15752961,
                tabu_fits(tabu_until@, n as int),
                best_edge matches Some(m) ==> m.0 < m.1 < n && m.2 == red_delta(e.adj_nbrs.masks@, 4, m.0 as int, m.1 as int)
                    && m.3 == blue_delta(e.adj_nbrs.masks@, e.comp_nbrs.masks@, 4, m.0 as int, m.1 as int)
                    && best_tier == descent_tier(*e, red_4, blue_4, m.0 as int, m.1 as int)
                    && pair_free(tabu_until@, nn, m.0 as int, m.1 as int, step),
                best_edge is None ==> best_tier == (i64::MAX, i64::MAX),
                best_edge is None <==> !exists|a: int, b: int|
                    0 <= a < b < n && (a < u || (a == u && b < v)) && #[trigger] pair_free(tabu_until@, nn, a, b, step),
                forall|a: int, b: int|
                    0 <= a < b < n && (a < u || (a == u && b < v)) && #[trigger] pair_free(tabu_until@, nn, a, b, step)
                        ==> !tier_less(descent_tier(*e, red_4, blue_4, a, b), best_tier),
            decreases n - v,
        {
            let eidx = edge_index(u, v, n);
            proof {
                crate::polish::lemma_pair_index_below(n as int, u as int, v as int);
            }
            if tabu_until[eidx] <= step {
                proof {
                    lemma_through_bounds(e.adj_nbrs.masks@, 4, u as int, v as int, true);
                    lemma_through_bounds(e.comp_nbrs.masks@, 4, u as int, v as int, true);
                    lemma_through_bounds(e.comp_nbrs.masks@, 4, u as int, v as int, false);
                }
                let (d_r4, d_b4) = violation_delta(&e.adj_nbrs, &e.comp_nbrs, 4, 4, u, v);
                let new_r4 = if red_4 as i64 + d_r4 >= 0 {
                    red_4 as i64 + d_r4
                } else {
                    0
                };
                let new_b4 = if blue_4 as i64 + d_b4 >= 0 {
                    blue_4 as i64 + d_b4
                } else {
                    0
                };
                let new_tier = tier_of(new_r4, new_b4);
                assert(new_tier == descent_tier(*e, red_4, blue_4, u as int, v as int));
                assert(new_tier.0 < i64::MAX);
                if tier_lt(new_tier, best_tier) {
                    best_tier = new_tier;
                    best_edge = Some((u, v, d_r4, d_b4));
                }
                assert(pair_free(tabu_until@, nn, u as int, v as int, step));
            } else {
                assert(!pair_free(tabu_until@, nn, u as int, v as int, step));
            }
            v = v + 1;
        }
        u = u + 1;
    }
    best_edge
}

/// The pair `u < v` is free (not tabu) at `step`.
pub open spec fn pair_free(tabu_until: Seq<u32>, n: int, u: int, v: int, step: u32) -> bool {
    tabu_until[pair_index(n, u, v)] <= step
}

/// Some pair `u < v < n` is free at `step`.
pub open spec fn some_pair_free(tabu_until: Seq<u32>, n: int, step: u32) -> bool {
    exists|u: int, v: int| 0 <= u < v < n && #[trigger] pair_free(tabu_until, n, u, v, step)
}

/// The change in the violation count that flipping `{u, v}` makes.
pub open spec fn repair_delta(e: BeamEntry, k: nat, ell: nat, u: int, v: int) -> int {
    red_delta(e.adj_nbrs.masks@, k, u, v) + blue_delta(e.adj_nbrs.masks@, e.comp_nbrs.masks@, ell, u, v)
}

/// The non-tabu pair whose flip lowers the violation count the most (or
/// raises it the least), the first found winning ties, with its two
/// deltas; none exactly when every pair is tabu.
fn best_repair_flip(e: &BeamEntry, k: u32, ell: u32, tabu_until: &Vec<u32>, step: u32) -> (r: Option<
    (u32, u32, i64, i64),
>)
    requires
        e.wf(),
        tabu_fits(tabu_until@, e.graph.order() as int),
    ensures
        r matches Some(m) ==> m.0 < m.1 < e.graph.order() && m.2 == red_delta(e.adj_nbrs.masks@, k as nat, m.0 as int, m.1 as int)
            && m.3 == blue_delta(e.adj_nbrs.masks@, e.comp_nbrs.masks@, ell as nat, m.0 as int, m.1 as int),
        r is None <==> !some_pair_free(tabu_until@, e.graph.order() as int, step),
        r matches Some(m) ==> pair_free(tabu_until@, e.graph.order() as int, m.0 as int, m.1 as int, step)
            && forall|a: int, b: int|
            0 <= a < b < e.graph.order() && #[trigger] pair_free(tabu_until@, e.graph.order() as int, a, b, step)
                ==> repair_delta(*e, k as nat, ell as nat, m.0 as int, m.1 as int) <= repair_delta(
                *e,
                k as nat,
                ell as nat,
                a,
                b,
            ),
{
    let n = e.graph.n();
    let ghost nn = n as int;
    let mut best_edge: Option<(u32, u32, i64, i64)> = None;
    let mut best_delta: i64 = i64::MAX;
    assert(n * n <= u32::MAX) by (nonlinear_arith)
        requires
            n <= 63,
    ;
    let mut u: u32 = 0;
    while u < n
        invariant
            u <= n,
            n == e.graph.order(),
            nn == n,
            n * n <= u32::MAX,
            e.wf(),
            tabu_fits(tabu_until@, n as int),
            best_edge matches Some(m) ==> m.0 < m.1 < n && m.2 == red_delta(e.adj_nbrs.masks@, k as nat, m.0 as int, m.1 as int)
                && m.3 == blue_delta(e.adj_nbrs.masks@, e.comp_nbrs.masks@, ell as nat, m.0 as int, m.1 as int)
                && best_delta == m.2 + m.3 && pair_free(tabu_until@, nn, m.0 as int, m.1 as int, step),
            best_edge is None ==> best_delta == i64::MAX,
            best_edge is None <==> !exists|a: int, b: int|
                0 <= a < b < n && a < u && #[trigger] pair_free(tabu_until@, nn, a, b, step),
            forall|a: int, b: int|
                0 <= a < b < n && a < u && #[trigger] pair_free(tabu_until@, nn, a, b, step) ==> best_delta <= repair_delta(
                    *e,
                    k as nat,
                    ell as nat,
                    a,
                    b,
                ),
        decreases n - u,
    {
        let mut v: u32 = u + 1;
        while v < n
            invariant
                u < n,
                u + 1 <= v <= n,
                n == e.graph.order(),
                nn == n,
                n * n <= u32::MAX,
                e.wf(),
                tabu_fits(tabu_until@, n as int),
                best_edge matches Some(m) ==> m.0 < m.1 < n && m.2 == red_delta(e.adj_nbrs.masks@, k as nat, m.0 as int, m.1 as int)
                    && m.3 == blue_delta(e.adj_nbrs.masks@, e.comp_nbrs.masks@, ell as nat, m.0 as int, m.1 as int)
                    && best_delta == m.2 + m.3 && pair_free(tabu_until@, nn, m.0 as int, m.1 as int, step),
                best_edge is None ==> best_delta == i64::MAX,
                best_edge is None <==> !exists|a: int, b: int|
                    0 <= a < b < n && (a < u || (a == u && b < v)) && #[trigger] pair_free(tabu_until@, nn, a, b, step),
                forall|a: int, b: int|
                    0 <= a < b < n && (a < u || (a == u && b < v)) && #[trigger] pair_free(tabu_until@, nn, a, b, step)
                        ==> best_delta <= repair_delta(*e, k as nat, ell as nat, a, b),
            decreases n - v,
        {
            let eidx = edge_index(u, v, n);
            proof {
                crate::polish::lemma_pair_index_below(n as int, u as int, v as int);
            }
            if tabu_until[eidx] <= step {
                proof {
                    lemma_through_bounds(e.adj_nbrs.masks@, k as nat, u as int, v as int, true);
                    lemma_through_bounds(e.comp_nbrs.masks@, ell as nat, u as int, v as int, true);
                    lemma_through_bounds(e.comp_nbrs.masks@, ell as nat, u as int, v as int, false);
                }
                let (dk, de) = violation_delta(&e.adj_nbrs, &e.comp_nbrs, k, ell, u, v);
                let total_delta = dk + de;
                assert(total_delta < i64::MAX);
                if total_delta < best_delta {
                    best_delta = total_delta;
                    best_edge = Some((u, v, dk, de));
                }
                assert(pair_free(tabu_until@, nn, u as int, v as int, step));
            } else {
                assert(!pair_free(tabu_until@, nn, u as int, v as int, step));
            }
            v = v + 1;
        }
        u = u + 1;
    }
    best_edge
}

/// All pairs `(u, v)`, `u < v < n`, in row-major order.
pub(crate) fn all_pairs_list(n: u32) -> (r: Vec<(u32, u32)>)
    ensures
        forall|i: int| 0 <= i < r@.len() ==> (#[trigger] r@[i]).0 < r@[i].1 < n,
        forall|a: u32, b: u32| #[trigger] r@.contains((a, b)) <==> a < b < n,
        r@.no_duplicates(),
        n >= 2 ==> r@.len() > 0,
{
    let mut r: Vec<(u32, u32)> = Vec::new();
    let mut u: u32 = 0;
    while u < n
        invariant
            u <= n,
            forall|i: int| 0 <= i < r@.len() ==> (#[trigger] r@[i]).0 < r@[i].1 < n,
            forall|a: u32, b: u32| #[trigger] r@.contains((a, b)) <==> a < b < n && a < u,
            r@.no_duplicates(),
            u >= 1 && n >= 2 ==> r@.len() > 0,
        decreases n - u,
    {
        let mut v: u32 = u + 1;
        while v < n
            invariant
                u < n,
                u + 1 <= v <= n,
                forall|i: int| 0 <= i < r@.len() ==> (#[trigger] r@[i]).0 < r@[i].1 < n,
                forall|a: u32, b: u32| #[trigger] r@.contains((a, b)) <==> a < b < n && (a < u || (a == u && b < v)),
                r@.no_duplicates(),
                v > u + 1 ==> r@.len() > 0,
                u >= 1 && n >= 2 ==> r@.len() > 0,
            decreases n - v,
        {
            let ghost before = r@;
            assert(!before.contains((u, v)));
            r.push((u, v));
            proof {
                assert forall|i: int, j: int| 0 <= i < r@.len() && 0 <= j < r@.len() && i != j implies r@[i] != r@[j] by {
                    if i < before.len() && j < before.len() {
                        assert(r@[i] == before[i] && r@[j] == before[j]);
                    } else if i < before.len() {
                        assert(before.contains(before[i]));
                    } else if j < before.len() {
                        assert(before.contains(before[j]));
                    }
                }
                assert forall|a: u32, b: u32| #[trigger] r@.contains((a, b)) <==> a < b < n && (a < u || (a == u && b
                    < v + 1)) by {
                    if r@.contains((a, b)) {
                        let i = choose|i: int| 0 <= i < r@.len() && r@[i] == (a, b);
                        if i < before.len() {
                            assert(before[i] == (a, b));
                            assert(before.contains((a, b)));
                        }
                    }
                    if a < b < n && (a < u || (a == u && b < v + 1)) {
                        if (a, b) != (u, v) {
                            assert(before.contains((a, b)));
                            let i = choose|i: int| 0 <= i < before.len() && before[i] == (a, b);
                            assert(r@[i] == (a, b));
                        } else {
                            assert(r@[before.len() as int] == (a, b));
                        }
                    }
                }
            }
            v = v + 1;
        }
        u = u + 1;
    }
    r
}

/// A tabu list of the given size, all pairs free.
fn fresh_tabu(size: usize) -> (r: Vec<u32>)
    ensures
        r@ == Seq::new(size as nat, |i: int| 0u32),
{
    let mut r: Vec<u32> = Vec::new();
    let mut i: usize = 0;
    while i < size
        invariant
            i <= size,
            r@ == Seq::new(i as nat, |j: int| 0u32),
        decreases size - i,
    {
        r.push(0);
        i = i + 1;
        assert(r@ =~= Seq::new(i as nat, |j: int| 0u32));
    }
    r
}

/// The tabu list of a fresh trial on `n` vertices: every pair free.
pub open spec fn zero_tabu(n: int) -> Seq<u32> {
    Seq::new((n * (n - 1) / 2) as nat, |i: int| 0u32)
}

/// A trial on the graph `g` with `n` vertices that spends `used` of a
/// budget of `left`: a `descent_walk` from an entry `e0` of `g` with every
/// pair free to `e1`, spending `d`, then a `repair_walk` from `e1` with
/// every pair free again to `e2`, spending the rest.
pub open spec fn trial_walk(
    cfg: GradientConfig,
    g: Set<(int, int)>,
    n: int,
    left: int,
    used: int,
    e0: BeamEntry,
    e1: BeamEntry,
    e2: BeamEntry,
    d: int,
    es: Seq<BeamEntry>,
    ts: Seq<Seq<u32>>,
    rs: Seq<BeamEntry>,
    rts: Seq<Seq<u32>>,
) -> bool {
    &&& e0.graph@ == g && e0.graph.order() == n
    &&& descent_walk(cfg, e0, zero_tabu(n), e1, d, left, es, ts)
    &&& repair_walk(cfg, e1, zero_tabu(n), e2, used - d, left - d, rs, rts)
}

/// The clique counts tracked while descending and repairing are the
/// entry's.
pub open spec fn counts_exact(e: BeamEntry, kk: nat, a: u64, ll: nat, b: u64) -> bool {
    &&& a == graph_cliques(e.graph@, e.graph.order() as int, kk)
    &&& b == graph_cliques(complement_edges(e.graph@, e.graph.order() as int), e.graph.order() as int, ll)
}

/// The `(max, min)` 4-clique tier of an entry's graph.
pub open spec fn tier4(e: BeamEntry) -> (i64, i64) {
    let n = e.graph.order() as int;
    let r = graph_cliques(e.graph@, n, 4) as i64;
    let b = graph_cliques(complement_edges(e.graph@, n), n, 4) as i64;
    if r >= b {
        (r, b)
    } else {
        (b, r)
    }
}

/// One descent step, number `s`: a free pair whose flip gives the lowest
/// tier is flipped and stays tabu until `s + tenure`.
pub open spec fn descent_step(e0: BeamEntry, t0: Seq<u32>, s: int, tenure: u32, e1: BeamEntry, t1: Seq<u32>) -> bool {
    let n = e0.graph.order() as int;
    let r4 = graph_cliques(e0.graph@, n, 4) as u64;
    let b4 = graph_cliques(complement_edges(e0.graph@, n), n, 4) as u64;
    exists|u: int, v: int|
        0 <= u < v < n && #[trigger] pair_free(t0, n, u, v, s as u32) && (forall|a: int, b: int|
            0 <= a < b < n && #[trigger] pair_free(t0, n, a, b, s as u32) ==> !tier_less(
                descent_tier(e0, r4, b4, a, b),
                descent_tier(e0, r4, b4, u, v),
            )) && e1.wf() && e1.graph.order() == n && e1.graph@ == toggle(e0.graph@, ordered(u, v)) && t1
            == t0.update(pair_index(n, u, v), (s + tenure) as u32)
}

/// A descent step at `s` flips one pair and holds it until `s + tenure`:
/// its tabu entry becomes `s + tenure` (when that fits), the others stay.
pub proof fn lemma_descent_step_holds_pair(e0: BeamEntry, t0: Seq<u32>, s: int, tenure: u32, e1: BeamEntry, t1: Seq<u32>)
    requires
        descent_step(e0, t0, s, tenure, e1, t1),
        tabu_fits(t0, e0.graph.order() as int),
        0 <= s,
        s + tenure <= u32::MAX,
    ensures
        exists|u: int, v: int|
            0 <= u < v < e0.graph.order() && e1.graph@ == toggle(e0.graph@, (u, v)) && t1.len() == t0.len() && (0 <= pair_index(
                e0.graph.order() as int,
                u,
                v,
            ) < t0.len() ==> #[trigger] t1[pair_index(e0.graph.order() as int, u, v)] as int == s + tenure) && forall|q: int|
                0 <= q < t0.len() && q != pair_index(e0.graph.order() as int, u, v) ==> t1[q] == t0[q],
{
    let n = e0.graph.order() as int;
    let r4 = graph_cliques(e0.graph@, n, 4) as u64;
    let b4 = graph_cliques(complement_edges(e0.graph@, n), n, 4) as u64;
    let (u, v) = choose|u: int, v: int|
        0 <= u < v < n && #[trigger] pair_free(t0, n, u, v, s as u32) && (forall|a: int, b: int|
            0 <= a < b < n && #[trigger] pair_free(t0, n, a, b, s as u32) ==> !tier_less(
                descent_tier(e0, r4, b4, a, b),
                descent_tier(e0, r4, b4, u, v),
            )) && e1.wf() && e1.graph.order() == n && e1.graph@ == toggle(e0.graph@, ordered(u, v)) && t1
            == t0.update(pair_index(n, u, v), (s + tenure) as u32);
    assert(ordered(u, v) == (u, v));
    crate::polish::lemma_pair_index_below(n, u, v);
    crate::adjacency::lemma_pair_index_bounds(n, u, v);
    assert(0 <= pair_index(n, u, v) < t0.len());
    if 0 <= pair_index(n, u, v) < t0.len() {
        assert(t1[pair_index(n, u, v)] == (s + tenure) as u32);
    }
    assert(t1.len() == t0.len());
    assert(forall|q: int| 0 <= q < t0.len() && q != pair_index(n, u, v) ==> t1[q] == t0[q]);
    assert(e1.graph@ == toggle(e0.graph@, (u, v)));
    assert(0 <= pair_index(n, u, v) < t0.len() ==> t1[pair_index(n, u, v)] as int == s + tenure);
}

/// A descent from `e0` with tabu list `t0`, through `es` and `ts`, ending
/// at `e1` after spending `used` iterations of a budget of `left`: every
/// step is a `descent_step`; it stops only with the budget or the steps
/// spent, with no pair free, or once a flip past twice the tenure did not
/// lower the tier.
pub open spec fn descent_walk(
    cfg: GradientConfig,
    e0: BeamEntry,
    t0: Seq<u32>,
    e1: BeamEntry,
    used: int,
    left: int,
    es: Seq<BeamEntry>,
    ts: Seq<Seq<u32>>,
) -> bool {
    let n = e0.graph.order() as int;
    let m = es.len() - 1;
    &&& es.len() >= 1 && ts.len() == es.len()
    &&& es[0] == e0 && ts[0] == t0
    &&& es[m] == e1
    &&& forall|i: int| 0 <= i < m ==> #[trigger] descent_step(es[i], ts[i], i + 1, cfg.tabu_tenure, es[i + 1], ts[i + 1])
    &&& m <= used <= left
    &&& (used == left || m == cfg.descent_steps || !some_pair_free(ts[m], n, (m + 1) as u32) || (m >= 1 && !tier_less(
        tier4(es[m]),
        tier4(es[m - 1]),
    ) && m > 2 * cfg.tabu_tenure))
}

/// The greedy descent on the `(max, min)` 4-clique tier: at most
/// `descent_steps` flips, one iteration each, stopping early when no pair
/// is free or the tier has stopped improving after twice the tenure.
fn descend(
    e: &mut BeamEntry,
    cfg: &GradientConfig,
    tabu_until: &mut Vec<u32>,
    total_iters: &mut u64,
    max_iters: u64,
)
    requires
        old(e).wf(),
        old(e).graph.order() >= 1,
        tabu_fits(old(tabu_until)@, old(e).graph.order() as int),
        cfg.descent_steps >= 1,
        cfg.descent_steps + cfg.tabu_tenure <= u32::MAX,
        2 * cfg.tabu_tenure <= u32::MAX,
        *old(total_iters) < max_iters,
    ensures
        final(e).wf(),
        final(e).graph.order() == old(e).graph.order(),
        tabu_fits(final(tabu_until)@, old(e).graph.order() as int),
        *old(total_iters) < *final(total_iters) <= max_iters,
        exists|es: Seq<BeamEntry>, ts: Seq<Seq<u32>>|
            #[trigger] descent_walk(
                *cfg,
                *old(e),
                old(tabu_until)@,
                *final(e),
                *final(total_iters) - *old(total_iters),
                max_iters - *old(total_iters),
                es,
                ts,
            ),
{
    let n = e.graph.n();
    let ghost nn = n as int;
    let ghost e_start = *e;
    let ghost t_start = tabu_until@;
    let ghost mut es: Seq<BeamEntry> = seq![*e];
    let ghost mut ts: Seq<Seq<u32>> = seq![tabu_until@];
    proof {
        lemma_small_clique_totals(e.adj_nbrs.masks@, nn);
        lemma_small_clique_totals(e.comp_nbrs.masks@, nn);
    }
    let mut red_4 = count_cliques(&e.adj_nbrs, 4, n);
    let mut blue_4 = count_cliques(&e.comp_nbrs, 4, n);
    let ghost start_iters = *total_iters;
    let mut step: u64 = 1;
    while step <= cfg.descent_steps as u64
        invariant
            1 <= step <= cfg.descent_steps + 1,
            cfg.descent_steps >= 1,
            cfg.descent_steps + cfg.tabu_tenure <= u32::MAX,
            2 * cfg.tabu_tenure <= u32::MAX,
            e.wf(),
            e.graph.order() == n,
            nn == n,
            tabu_fits(tabu_until@, nn),
            counts_exact(*e, 4, red_4, 4, blue_4),
            start_iters < max_iters,
            start_iters + (step - 1) <= *total_iters <= max_iters,
            e_start.graph.order() == n,
            es.len() >= 1 && ts.len() == es.len(),
            es[0] == e_start && ts[0] == t_start,
            forall|i: int|
                0 <= i < step - 1 ==> #[trigger] descent_step(es[i], ts[i], i + 1, cfg.tabu_tenure, es[i + 1], ts[i + 1]),
            es.len() == step && ts.len() == step,
            es[step - 1] == *e && ts[step - 1] == tabu_until@,
        ensures
            e.wf(),
            e.graph.order() == n,
            tabu_fits(tabu_until@, nn),
            start_iters < *total_iters <= max_iters,
            descent_walk(*cfg, e_start, t_start, *e, *total_iters - start_iters, max_iters - start_iters, es, ts),
        decreases cfg.descent_steps + 1 - step,
    {
        if *total_iters >= max_iters {
            break;
        }
        *total_iters = *total_iters + 1;
        proof {
            lemma_small_clique_totals(e.adj_nbrs.masks@, nn);
            lemma_small_clique_totals(e.comp_nbrs.masks@, nn);
        }
        if step % 100 == 0 {
            red_4 = count_cliques(&e.adj_nbrs, 4, n);
            blue_4 = count_cliques(&e.comp_nbrs, 4, n);
        }
        let current_tier = tier_of(red_4 as i64, blue_4 as i64);
        let ghost e_prev = *e;
        let ghost t_prev = tabu_until@;
        assert(current_tier == tier4(e_prev));
        match best_descent_flip(e, red_4, blue_4, tabu_until, step as u32) {
            Some((u, v, d_r4, d_b4)) => {
                proof {
                    lemma_entry_flip(*e, 4, 4, u as int, v as int);
                }
                e.flip(u, v);
                proof {
                    lemma_small_clique_totals(e.adj_nbrs.masks@, nn);
                    lemma_small_clique_totals(e.comp_nbrs.masks@, nn);
                }
                red_4 = (red_4 as i64 + d_r4) as u64;
                blue_4 = (blue_4 as i64 + d_b4) as u64;
                assert(n * n <= u32::MAX) by (nonlinear_arith)
                    requires
                        n <= 63,
                ;
                let eidx = edge_index(u, v, n);
                proof {
                    crate::polish::lemma_pair_index_below(nn, u as int, v as int);
                }
                tabu_until[eidx] = (step + cfg.tabu_tenure as u64) as u32;
                let new_tier = tier_of(red_4 as i64, blue_4 as i64);
                proof {
                    assert(descent_step(e_prev, t_prev, step as int, cfg.tabu_tenure, *e, tabu_until@));
                    let es0 = es;
                    let ts0 = ts;
                    es = es.push(*e);
                    ts = ts.push(tabu_until@);
                    assert forall|i: int|
                        0 <= i < step implies #[trigger] descent_step(es[i], ts[i], i + 1, cfg.tabu_tenure, es[i + 1], ts[i + 1]) by {
                        if i < step - 1 {
                            assert(es[i] == es0[i] && es[i + 1] == es0[i + 1] && ts[i] == ts0[i] && ts[i + 1] == ts0[i + 1]);
                        }
                    }
                    assert(new_tier == tier4(*e));
                    assert(es[step as int - 1] == e_prev);
                }
                let stalled = !tier_lt(new_tier, current_tier) && step > (cfg.tabu_tenure * 2) as u64;
                step = step + 1;
                if stalled {
                    break;
                }
            },
            None => {
                break;
            },
        }
    }
}

/// One repair step, number `s`: a free pair with the lowest
/// violation-count delta is flipped and stays tabu until `s + tenure`.
pub open spec fn repair_step(
    e0: BeamEntry,
    t0: Seq<u32>,
    s: int,
    k: nat,
    ell: nat,
    tenure: u32,
    e1: BeamEntry,
    t1: Seq<u32>,
) -> bool {
    let n = e0.graph.order() as int;
    exists|u: int, v: int|
        0 <= u < v < n && #[trigger] pair_free(t0, n, u, v, s as u32) && (forall|a: int, b: int|
            0 <= a < b < n && #[trigger] pair_free(t0, n, a, b, s as u32) ==> repair_delta(e0, k, ell, u, v)
                <= repair_delta(e0, k, ell, a, b)) && e1.wf() && e1.graph.order() == n && e1.graph@ == toggle(
            e0.graph@,
            ordered(u, v),
        ) && t1 == t0.update(pair_index(n, u, v), (s + tenure) as u32)
}

/// A repair step at `s` flips one pair and holds it until `s + tenure`:
/// its tabu entry becomes `s + tenure` (when that fits), the others stay.
pub proof fn lemma_repair_step_holds_pair(
    e0: BeamEntry,
    t0: Seq<u32>,
    s: int,
    k: nat,
    ell: nat,
    tenure: u32,
    e1: BeamEntry,
    t1: Seq<u32>,
)
    requires
        repair_step(e0, t0, s, k, ell, tenure, e1, t1),
        tabu_fits(t0, e0.graph.order() as int),
        0 <= s,
        s + tenure <= u32::MAX,
    ensures
        exists|u: int, v: int|
            0 <= u < v < e0.graph.order() && e1.graph@ == toggle(e0.graph@, (u, v)) && t1.len() == t0.len()
                && #[trigger] t1[pair_index(e0.graph.order() as int, u, v)] as int == s + tenure && forall|q: int|
                0 <= q < t0.len() && q != pair_index(e0.graph.order() as int, u, v) ==> t1[q] == t0[q],
{
    let n = e0.graph.order() as int;
    let (u, v) = choose|u: int, v: int|
        0 <= u < v < n && #[trigger] pair_free(t0, n, u, v, s as u32) && (forall|a: int, b: int|
            0 <= a < b < n && #[trigger] pair_free(t0, n, a, b, s as u32) ==> repair_delta(e0, k, ell, u, v)
                <= repair_delta(e0, k, ell, a, b)) && e1.wf() && e1.graph.order() == n && e1.graph@ == toggle(
            e0.graph@,
            ordered(u, v),
        ) && t1 == t0.update(pair_index(n, u, v), (s + tenure) as u32);
    assert(ordered(u, v) == (u, v));
    crate::polish::lemma_pair_index_below(n, u, v);
    crate::adjacency::lemma_pair_index_bounds(n, u, v);
    assert(0 <= pair_index(n, u, v) < t0.len());
    assert(t1[pair_index(n, u, v)] == (s + tenure) as u32);
    assert(t1.len() == t0.len());
    assert(forall|q: int| 0 <= q < t0.len() && q != pair_index(n, u, v) ==> t1[q] == t0[q]);
}

/// A repair from `e0` with tabu list `t0`, through the entries `es` and
/// tabu lists `ts`, ending at `e1` after spending `used` iterations of a
/// budget of `left`: every step is a `repair_step`, and it stops only on a
/// valid graph, with the budget or the steps spent, or with no pair free.
pub open spec fn repair_walk(
    cfg: GradientConfig,
    e0: BeamEntry,
    t0: Seq<u32>,
    e1: BeamEntry,
    used: int,
    left: int,
    es: Seq<BeamEntry>,
    ts: Seq<Seq<u32>>,
) -> bool {
    let n = e0.graph.order() as int;
    let k = cfg.k as nat;
    let ell = cfg.ell as nat;
    let m = es.len() - 1;
    &&& es.len() >= 1 && ts.len() == es.len()
    &&& es[0] == e0 && ts[0] == t0
    &&& es[m] == e1
    &&& forall|i: int| 0 <= i < m ==> #[trigger] repair_step(es[i], ts[i], i + 1, k, ell, cfg.tabu_tenure, es[i + 1], ts[i + 1])
    &&& m <= used <= left
    &&& (violation_count(e1.graph@, n, k, ell) == 0 || used == left || m == cfg.repair_steps || !some_pair_free(
        ts[m],
        n,
        (m + 1) as u32,
    ))
}

/// The greedy repair of the violations: at most `repair_steps` flips, one
/// iteration each, stopping once the graph is valid or no pair is free.
fn repair(
    e: &mut BeamEntry,
    cfg: &GradientConfig,
    tabu_until: &mut Vec<u32>,
    total_iters: &mut u64,
    max_iters: u64,
)
    requires
        old(e).wf(),
        old(e).graph.order() >= 1,
        tabu_fits(old(tabu_until)@, old(e).graph.order() as int),
        cfg.repair_steps + cfg.tabu_tenure <= u32::MAX,
        *old(total_iters) <= max_iters,
    ensures
        final(e).wf(),
        final(e).graph.order() == old(e).graph.order(),
        tabu_fits(final(tabu_until)@, old(e).graph.order() as int),
        *old(total_iters) <= *final(total_iters) <= max_iters,
        exists|flips: Seq<(int, int)>|
            #![trigger toggle_all(old(e).graph@, flips)]
            flips.len() <= *final(total_iters) - *old(total_iters) && (forall|j: int|
                0 <= j < flips.len() ==> is_vertex_pair(old(e).graph.order() as int, #[trigger] flips[j]))
                && final(e).graph@ == toggle_all(old(e).graph@, flips),
        violation_count(old(e).graph@, old(e).graph.order() as int, cfg.k as nat, cfg.ell as nat) == 0 ==> final(e).graph@
            == old(e).graph@ && *final(total_iters) == *old(total_iters),
        violation_count(old(e).graph@, old(e).graph.order() as int, cfg.k as nat, cfg.ell as nat) > 0 && *old(total_iters)
            < max_iters && cfg.repair_steps >= 1 ==> *old(total_iters) < *final(total_iters),
        exists|es: Seq<BeamEntry>, ts: Seq<Seq<u32>>|
            #[trigger] repair_walk(
                *cfg,
                *old(e),
                old(tabu_until)@,
                *final(e),
                *final(total_iters) - *old(total_iters),
                max_iters - *old(total_iters),
                es,
                ts,
            ),
{
    let n = e.graph.n();
    let ghost nn = n as int;
    let ghost e_start = *e;
    let ghost t_start = tabu_until@;
    let ghost iters_start = *total_iters;
    let ghost mut es: Seq<BeamEntry> = seq![*e];
    let ghost mut ts: Seq<Seq<u32>> = seq![tabu_until@];
    let k = cfg.k;
    let ell = cfg.ell;
    proof {
        lemma_cliques_of_small(e.adj_nbrs.masks@, k as nat, nn);
        lemma_cliques_of_small(e.comp_nbrs.masks@, ell as nat, nn);
    }
    let mut kc = count_cliques(&e.adj_nbrs, k, n);
    let mut ei = count_cliques(&e.comp_nbrs, ell, n);
    let mut violations = kc + ei;
    let ghost start = e.graph@;
    let ghost mut flips: Seq<(int, int)> = Seq::empty();
    assert(toggle_all(start, flips) == start);
    if violations == 0 {
        assert(repair_walk(*cfg, e_start, t_start, *e, *total_iters - iters_start, max_iters - iters_start, es, ts));
        return;
    }
    let ghost start_iters = *total_iters;
    let mut step: u64 = 1;
    while step <= cfg.repair_steps as u64
        invariant
            1 <= step <= cfg.repair_steps + 1,
            cfg.repair_steps + cfg.tabu_tenure <= u32::MAX,
            k == cfg.k,
            ell == cfg.ell,
            e.wf(),
            e.graph.order() == n,
            nn == n,
            tabu_fits(tabu_until@, nn),
            counts_exact(*e, k as nat, kc, ell as nat, ei),
            kc <= 0x7fff_ffff_ffff_ffff,
            ei <= 0x7fff_ffff_ffff_ffff,
            violations == kc + ei,
            start_iters <= *total_iters <= max_iters,
            flips.len() <= *total_iters - start_iters,
            forall|j: int| 0 <= j < flips.len() ==> is_vertex_pair(nn, #[trigger] flips[j]),
            e.graph@ == toggle_all(start, flips),
            step > 1 ==> start_iters < *total_iters,
            start_iters == iters_start,
            e_start.graph.order() == n,
            es.len() == step && ts.len() == step,
            es[0] == e_start && ts[0] == t_start,
            es[step - 1] == *e && ts[step - 1] == tabu_until@,
            forall|i: int|
                0 <= i < step - 1 ==> #[trigger] repair_step(es[i], ts[i], i + 1, k as nat, ell as nat, cfg.tabu_tenure, es[i + 1], ts[i + 1]),
            step - 1 <= *total_iters - start_iters,
        ensures
            e.wf(),
            e.graph.order() == n,
            tabu_fits(tabu_until@, nn),
            start_iters <= *total_iters <= max_iters,
            flips.len() <= *total_iters - start_iters,
            forall|j: int| 0 <= j < flips.len() ==> is_vertex_pair(nn, #[trigger] flips[j]),
            e.graph@ == toggle_all(start, flips),
            start_iters < max_iters && cfg.repair_steps >= 1 ==> start_iters < *total_iters,
            repair_walk(*cfg, e_start, t_start, *e, *total_iters - start_iters, max_iters - start_iters, es, ts),
        decreases cfg.repair_steps + 1 - step,
    {
        if *total_iters >= max_iters {
            break;
        }
        *total_iters = *total_iters + 1;
        if violations == 0 {
            break;
        }
        if step % 200 == 0 {
            kc = count_cliques(&e.adj_nbrs, k, n);
            ei = count_cliques(&e.comp_nbrs, ell, n);
            violations = kc + ei;
            if violations == 0 {
                break;
            }
        }
        let ghost e_prev = *e;
        let ghost t_prev = tabu_until@;
        match best_repair_flip(e, k, ell, tabu_until, step as u32) {
            Some((u, v, dk, de)) => {
                proof {
                    lemma_entry_flip(*e, k as nat, ell as nat, u as int, v as int);
                }
                e.flip(u, v);
                proof {
                    let p = (u as int, v as int);
                    assert(flips.push(p).drop_last() =~= flips);
                    flips = flips.push(p);
                    lemma_cliques_of_small(e.adj_nbrs.masks@, k as nat, nn);
                    lemma_cliques_of_small(e.comp_nbrs.masks@, ell as nat, nn);
                }
                kc = (kc as i64 + dk) as u64;
                ei = (ei as i64 + de) as u64;
                violations = kc + ei;
                assert(n * n <= u32::MAX) by (nonlinear_arith)
                    requires
                        n <= 63,
                ;
                let eidx = edge_index(u, v, n);
                proof {
                    crate::polish::lemma_pair_index_below(nn, u as int, v as int);
                }
                tabu_until[eidx] = (step + cfg.tabu_tenure as u64) as u32;
                proof {
                    assert(repair_step(e_prev, t_prev, step as int, k as nat, ell as nat, cfg.tabu_tenure, *e, tabu_until@));
                    let es0 = es;
                    let ts0 = ts;
                    es = es.push(*e);
                    ts = ts.push(tabu_until@);
                    assert forall|i: int|
                        0 <= i < step implies #[trigger] repair_step(es[i], ts[i], i + 1, k as nat, ell as nat, cfg.tabu_tenure, es[i + 1], ts[i + 1]) by {
                        if i < step - 1 {
                            assert(es[i] == es0[i] && es[i + 1] == es0[i + 1] && ts[i] == ts0[i] && ts[i + 1] == ts0[i + 1]);
                        }
                    }
                }
            },
            None => {
                break;
            },
        }
        step = step + 1;
    }
}

/// The parameters keep every step count and tabu expiry within `u32`, and
/// every trial takes at least one step.
pub open spec fn config_ok(cfg: &GradientConfig) -> bool {
    &&& cfg.descent_steps >= 1
    &&& cfg.descent_steps + cfg.tabu_tenure <= u32::MAX
    &&& cfg.repair_steps + cfg.tabu_tenure <= u32::MAX
    &&& 2 * cfg.tabu_tenure <= u32::MAX
    &&& cfg.polish_max_steps + cfg.polish_tabu_tenure <= u32::MAX
}

/// One trial: from the seed, after `perturb_flips` random flips of listed
/// pairs when `perturb`, descend on the 4-clique tier, repair the
/// violations, and, if the result is valid, report and polish it.
fn run_trial(
    seed_graph: &AdjacencyMatrix,
    pairs: &Vec<(u32, u32)>,
    cfg: &GradientConfig,
    perturb: bool,
    rng: &mut SmallRng,
    total_iters: &mut u64,
    max_iters: u64,
    findings: &mut Findings,
)
    requires
        seed_graph.wf(),
        1 <= seed_graph.order() <= 63,
        forall|i: int| 0 <= i < pairs@.len() ==> (#[trigger] pairs@[i]).0 < pairs@[i].1 < seed_graph.order(),
        config_ok(cfg),
        *old(total_iters) < max_iters,
        old(findings).inv(seed_graph.order() as int, cfg.k as nat, cfg.ell as nat),
        old(findings).best is Some <==> old(findings).discoveries@.len() > 0,
    ensures
        *old(total_iters) < *final(total_iters) <= max_iters,
        final(findings).inv(seed_graph.order() as int, cfg.k as nat, cfg.ell as nat),
        final(findings).best is Some <==> final(findings).discoveries@.len() > 0,
        old(findings).best is Some ==> final(findings).best is Some,
        !perturb ==> exists|e0: BeamEntry, e1: BeamEntry, e2: BeamEntry, d: int, es: Seq<BeamEntry>, ts: Seq<Seq<u32>>, rs: Seq<BeamEntry>, rts: Seq<Seq<u32>>|
            #[trigger] trial_walk(*cfg, seed_graph@, seed_graph.order() as int, max_iters - *old(total_iters), *final(total_iters) - *old(total_iters), e0, e1, e2, d, es, ts, rs, rts)
                && (violation_count(e2.graph@, seed_graph.order() as int, cfg.k as nat, cfg.ell as nat) == 0 ==> final(findings).best is Some),
{
    let n = seed_graph.n();
    let mut graph = seed_graph.copy_of();
    if perturb && pairs.len() > 0 {
        let mut t: u32 = 0;
        while t < cfg.perturb_flips
            invariant
                t <= cfg.perturb_flips,
                graph.wf(),
                graph.order() == n,
                pairs@.len() > 0,
                forall|i: int| 0 <= i < pairs@.len() ==> (#[trigger] pairs@[i]).0 < pairs@[i].1 < n,
            decreases cfg.perturb_flips - t,
        {
            let idx = random_usize_in(rng, 0, pairs.len());
            let (u, v) = pairs[idx];
            let cur = graph.edge(u, v);
            graph.set_edge(u, v, !cur);
            t = t + 1;
        }
    }
    let mut e = BeamEntry::from_graph(graph, cfg.k, cfg.ell);
    assert(n * (n - 1) <= 63 * 62) by (nonlinear_arith)
        requires
            1 <= n <= 63,
    ;
    let edge_count = (n * (n - 1) / 2) as usize;
    let mut tabu_until = fresh_tabu(edge_count);
    let ghost e0 = e;
    let ghost it0 = *total_iters;
    assert(tabu_until@ == zero_tabu(n as int));
    descend(&mut e, cfg, &mut tabu_until, total_iters, max_iters);
    let ghost e1 = e;
    let ghost it1 = *total_iters;
    let mut repair_tabu = fresh_tabu(edge_count);
    assert(repair_tabu@ == zero_tabu(n as int));
    repair(&mut e, cfg, &mut repair_tabu, total_iters, max_iters);
    proof {
        let (es, ts) = choose|es: Seq<BeamEntry>, ts: Seq<Seq<u32>>|
            #[trigger] descent_walk(*cfg, e0, zero_tabu(n as int), e1, it1 - it0, max_iters - it0, es, ts);
        let (rs, rts) = choose|rs: Seq<BeamEntry>, rts: Seq<Seq<u32>>|
            #[trigger] repair_walk(*cfg, e1, zero_tabu(n as int), e, *total_iters - it1, max_iters - it1, rs, rts);
        if !perturb {
            assert(trial_walk(*cfg, seed_graph@, n as int, max_iters - it0, *total_iters - it0, e0, e1, e, it1 - it0, es, ts, rs, rts));
        }
    }
    let violations = count_violations(&e.graph, cfg.k, cfg.ell);
    if violations == 0 {
        findings.report_valid(
            &e.graph,
            cfg.k,
            cfg.ell,
            cfg.polish_max_steps,
            cfg.polish_tabu_tenure,
            MAX_GRADIENT_POLISH,
            *total_iters,
        );
    }
}

impl GradientDescent {
    /// Run trials until the iteration budget is spent: each starts from
    /// the seed graph (`init_graph`, or a random graph drawn from the
    /// generator seeded with `seed`), perturbed after the first trial,
    /// descends on the 4-clique tier, repairs the violations, and reports
    /// and polishes its result when valid. The best graph is the best valid
    /// one found, or the seed when none was. Of the graphs found, only those
    /// whose CID (`cid_of`, meant to name the isomorphism class) is not
    /// among `known_cids` nor that of an earlier one are handed back.
    pub fn search<F: Fn(&AdjacencyMatrix) -> GraphCid>(
        &self,
        n: u32,
        max_iters: u64,
        seed: u64,
        init_graph: Option<AdjacencyMatrix>,
        cfg: &GradientConfig,
        known_cids: Vec<GraphCid>,
        cid_of: F,
    ) -> (r: SearchResult)
        requires
            1 <= n <= 63,
            init_graph matches Some(g) ==> g.wf() && g.order() == n,
            config_ok(cfg),
            forall|g: &AdjacencyMatrix| g.wf() ==> #[trigger] cid_of.requires((g,)),
        ensures
            r.iterations_used == max_iters,
            exists|found: Seq<RawDiscovery>, known1: Seq<GraphCid>, c: Seq<GraphCid>, pos: Seq<int>|
                #[trigger] kept_new(cid_of, found, known_cids@, known1, r.discoveries@, c, pos) && all_valid(
                    found,
                    n as int,
                    cfg.k as nat,
                    cfg.ell as nat,
                ) && (r.valid <==> found.len() > 0),
            all_valid(r.discoveries@, n as int, cfg.k as nat, cfg.ell as nat),
            r.best_graph matches Some(g) && g.wf() && g.order() == n,
            r.valid ==> violation_count(r.best_graph->Some_0@, n as int, cfg.k as nat, cfg.ell as nat) == 0,
            !r.valid && init_graph is Some ==> r.best_graph->Some_0@ == init_graph->Some_0@,
            max_iters > 0 ==> exists|g: Set<(int, int)>, u: int, e0: BeamEntry, e1: BeamEntry, e2: BeamEntry, d: int, es: Seq<BeamEntry>, ts: Seq<Seq<u32>>, rs: Seq<BeamEntry>, rts: Seq<Seq<u32>>|
                #[trigger] trial_walk(*cfg, g, n as int, max_iters as int, u, e0, e1, e2, d, es, ts, rs, rts)
                    && (init_graph matches Some(s) ==> g == s@)
                    && (violation_count(e2.graph@, n as int, cfg.k as nat, cfg.ell as nat) == 0 ==> r.valid),
    {
        let ghost init = init_graph;
        let mut rng = seeded_rng(seed);
        let seed_graph = match init_graph {
            Some(g) => g,
            None => {
                assert(n * (n - 1) <= 63 * 62) by (nonlinear_arith)
                    requires
                        1 <= n <= 63,
                ;
                random_graph(n, &mut rng)
            },
        };
        let pairs = all_pairs_list(n);
        let mut findings = Findings::new();
        let mut total_iters: u64 = 0;
        let mut trials: u64 = 0;
        while total_iters < max_iters
            invariant
                total_iters <= max_iters,
                trials <= total_iters,
                seed_graph.wf(),
                seed_graph.order() == n,
                1 <= n <= 63,
                forall|i: int| 0 <= i < pairs@.len() ==> (#[trigger] pairs@[i]).0 < pairs@[i].1 < n,
                config_ok(cfg),
                findings.inv(n as int, cfg.k as nat, cfg.ell as nat),
                findings.best is Some <==> findings.discoveries@.len() > 0,
                init matches Some(s) ==> seed_graph@ == s@,
                trials == 0 ==> total_iters == 0,
                trials >= 1 ==> exists|u: int, e0: BeamEntry, e1: BeamEntry, e2: BeamEntry, d: int, es: Seq<BeamEntry>, ts: Seq<Seq<u32>>, rs: Seq<BeamEntry>, rts: Seq<Seq<u32>>|
                    #[trigger] trial_walk(*cfg, seed_graph@, n as int, max_iters as int, u, e0, e1, e2, d, es, ts, rs, rts)
                        && (violation_count(e2.graph@, n as int, cfg.k as nat, cfg.ell as nat) == 0 ==> findings.best is Some),
            decreases max_iters - total_iters,
        {
            trials = trials + 1;
            run_trial(
                &seed_graph,
                &pairs,
                cfg,
                trials > 1 && cfg.perturb_flips > 0,
                &mut rng,
                &mut total_iters,
                max_iters,
                &mut findings,
            );
        }
        let Findings { discoveries, best, .. } = findings;
        let valid = best.is_some();
        let best_graph = match best {
            Some(g) => Some(g),
            None => Some(seed_graph),
        };
        let mut known = known_cids;
        let kept = keep_new_discoveries(&discoveries, &mut known, &cid_of);
        proof {
            let (c, pos) = choose|c: Seq<GraphCid>, pos: Seq<int>|
                #[trigger] kept_new(cid_of, discoveries@, known_cids@, known@, kept@, c, pos);
            lemma_kept_valid(cid_of, discoveries@, known_cids@, known@, kept@, c, pos, n as int, cfg.k as nat, cfg.ell as nat);
        }
        let ghost kept_view = kept@;
        let res = SearchResult { best_graph, valid, iterations_used: total_iters, discoveries: kept };
        assert(res.discoveries@ == kept_view);
        res
    }
}

} // verus!
