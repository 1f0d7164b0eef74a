//! Seidel switching: for a vertex set `S`, every pair with exactly one end in
//! `S` has its adjacency reversed.

use rand::rngs::SmallRng;
use vstd::prelude::*;

use crate::adjacency::{AdjacencyMatrix, all_pairs, is_vertex_pair, ordered};
use crate::beam::{found_graph, lemma_found_grows};
use crate::polish::{Findings, all_valid, count_violations, four_key, key_less, lemma_kept_valid, violation_count};
use crate::random::{random_u32_in, random_usize_in, seeded_rng};
use crate::search::{RawDiscovery, SearchResult, keep_new_discoveries, kept_new};
use crate::types::GraphCid;

verus! {

/// Seidel switching search.
pub struct SeidelSearch;

/// `v` occurs in `s`.
pub open spec fn member(s: Seq<u32>, v: int) -> bool {
    exists|i: int| 0 <= i < s.len() && #[trigger] s[i] as int == v
}

/// The edges of the graph `edges` on `0..n` switched with respect to the
/// vertex set `s`.
pub open spec fn switched(edges: Set<(int, int)>, n: int, s: Seq<u32>) -> Set<(int, int)> {
    Set::new(
        |e: (int, int)| is_vertex_pair(n, e) && (edges.contains(e) != (member(s, e.0) != member(s, e.1))),
    )
}

/// The pairs reversed so far: those crossing the set whose end in the set
/// comes before `u`, or is `u` with the other end before `v`.
spec fn switch_prefix(edges: Set<(int, int)>, n: int, ins: Seq<bool>, u: int, v: int) -> Set<(int, int)> {
    Set::new(
        |e: (int, int)|
            is_vertex_pair(n, e) && (edges.contains(e) != (ins[e.0] != ins[e.1] && ({
                let s = if ins[e.0] {
                    e.0
                } else {
                    e.1
                };
                let t = if ins[e.0] {
                    e.1
                } else {
                    e.0
                };
                s < u || (s == u && t < v)
            }))),
    )
}

/// The graph switched with respect to the vertices of `switching_set`.
pub fn seidel_switch(graph: &AdjacencyMatrix, switching_set: &[u32]) -> (r: AdjacencyMatrix)
    requires
        graph.wf(),
        forall|i: int| 0 <= i < switching_set@.len() ==> #[trigger] switching_set@[i] < graph.order(),
    ensures
        r.wf(),
        r.order() == graph.order(),
        r@ == switched(graph@, graph.order() as int, switching_set@),
        graph.padding_clear() ==> r.padding_clear(),
{
    let n = graph.n();
    let mut result = graph.copy_of();
    let mut in_set: Vec<bool> = Vec::new();
    let mut k: u32 = 0;
    while k < n
        invariant
            k <= n,
            in_set@.len() == k,
            forall|j: int| 0 <= j < k ==> !#[trigger] in_set@[j],
        decreases n - k,
    {
        in_set.push(false);
        k = k + 1;
    }
    let mut m: usize = 0;
    while m < switching_set.len()
        invariant
            m <= switching_set@.len(),
            in_set@.len() == n,
            n == graph.order(),
            forall|i: int| 0 <= i < switching_set@.len() ==> #[trigger] switching_set@[i] < n,
            forall|v: int|
                0 <= v < n ==> (#[trigger] in_set@[v] <==> exists|i: int|
                    0 <= i < m && #[trigger] switching_set@[i] as int == v),
        decreases switching_set@.len() - m,
    {
        let v = switching_set[m];
        in_set.set(v as usize, true);
        proof {
            assert forall|w: int| 0 <= w < n implies (#[trigger] in_set@[w] <==> exists|i: int|
                0 <= i < m + 1 && #[trigger] switching_set@[i] as int == w) by {
                if w == v {
                    assert(switching_set@[m as int] as int == w);
                }
            }
        }
        m = m + 1;
    }
    let ghost ins = in_set@;
    let ghost edges = graph@;
    proof {
        graph.lemma_edges_are_pairs();
        assert(result@ =~= switch_prefix(edges, n as int, ins, 0, 0));
    }
    let mut u: u32 = 0;
    while u < n
        invariant
            u <= n,
            n == graph.order(),
            in_set@ == ins,
            ins.len() == n,
            result.wf(),
            result.order() == n,
            graph.padding_clear() ==> result.padding_clear(),
            result@ == switch_prefix(edges, n as int, ins, u as int, 0),
        decreases n - u,
    {
        if in_set[u as usize] {
            let mut v: u32 = 0;
            while v < n
                invariant
                    u < n,
                    v <= n,
                    n == graph.order(),
                    in_set@ == ins,
                    ins.len() == n,
                    ins[u as int],
                    result.wf(),
                    result.order() == n,
                    graph.padding_clear() ==> result.padding_clear(),
                    result@ == switch_prefix(edges, n as int, ins, u as int, v as int),
                decreases n - v,
            {
                let ghost before = result@;
                if !(in_set[v as usize] || u == v) {
                    let lo = if u < v {
                        u
                    } else {
                        v
                    };
                    let hi = if u < v {
                        v
                    } else {
                        u
                    };
                    let current = result.edge(lo, hi);
                    result.set_edge(lo, hi, !current);
                    proof {
                        assert(ordered(lo as int, hi as int) == ordered(u as int, v as int));
                    }
                }
                proof {
                    assert(result@ =~= switch_prefix(edges, n as int, ins, u as int, v + 1));
                }
                v = v + 1;
            }
        }
        proof {
            assert(result@ =~= switch_prefix(edges, n as int, ins, u + 1, 0));
        }
        u = u + 1;
    }
    proof {
        assert forall|w: int| 0 <= w < n implies ins[w] == member(switching_set@, w) by {}
        assert(result@ =~= switched(edges, n as int, switching_set@));
    }
    result
}

/// Switching twice with respect to the same set gives the graph back.
pub proof fn lemma_switch_involution(edges: Set<(int, int)>, n: int, s: Seq<u32>)
    requires
        edges.subset_of(all_pairs(n)),
    ensures
        switched(switched(edges, n, s), n, s) == edges,
{
    assert(switched(switched(edges, n, s), n, s) =~= edges);
}

/// Switching with respect to the empty set changes nothing.
pub proof fn lemma_switch_empty(edges: Set<(int, int)>, n: int)
    requires
        edges.subset_of(all_pairs(n)),
    ensures
        switched(edges, n, Seq::empty()) == edges,
{
    assert(switched(edges, n, Seq::empty()) =~= edges);
}

/// `min(size, n)` distinct vertices of `0..n`, chosen at random (a partial
/// Fisher-Yates shuffle).
pub fn random_subset(n: u32, size: u32, rng: &mut SmallRng) -> (r: Vec<u32>)
    ensures
        r@.len() == if size < n {
            size
        } else {
            n
        },
        forall|i: int| 0 <= i < r@.len() ==> #[trigger] r@[i] < n,
        forall|i: int, j: int| 0 <= i < j < r@.len() ==> #[trigger] r@[i] != #[trigger] r@[j],
{
    let mut vertices: Vec<u32> = Vec::new();
    let mut v: u32 = 0;
    while v < n
        invariant
            v <= n,
            vertices@.len() == v,
            forall|i: int| 0 <= i < v ==> #[trigger] vertices@[i] == i,
        decreases n - v,
    {
        vertices.push(v);
        v = v + 1;
    }
    let size = if size < n {
        size as usize
    } else {
        n as usize
    };
    let len = vertices.len();
    let mut i: usize = 0;
    while i < size
        invariant
            i <= size,
            size <= len,
            len == n,
            vertices@.len() == len,
            forall|a: int| 0 <= a < len ==> #[trigger] vertices@[a] < n,
            forall|a: int, b: int| 0 <= a < b < len ==> #[trigger] vertices@[a] != #[trigger] vertices@[b],
        decreases size - i,
    {
        let j = random_usize_in(rng, i, len);
        let x = vertices[i];
        let y = vertices[j];
        let ghost before = vertices@;
        vertices.set(i, y);
        vertices.set(j, x);
        proof {
            assert forall|a: int, b: int| 0 <= a < b < len implies #[trigger] vertices@[a] != #[trigger] vertices@[b] by {
                let pa = if a == i { j as int } else if a == j { i as int } else { a };
                let pb = if b == i { j as int } else if b == j { i as int } else { b };
                assert(vertices@[a] == before[pa]);
                assert(vertices@[b] == before[pb]);
                assert(pa != pb);
            }
            assert forall|a: int| 0 <= a < len implies #[trigger] vertices@[a] < n by {
                let pa = if a == i { j as int } else if a == j { i as int } else { a };
                assert(vertices@[a] == before[pa]);
            }
        }
        i = i + 1;
    }
    let mut out: Vec<u32> = Vec::new();
    let mut t: usize = 0;
    while t < size
        invariant
            t <= size,
            size <= len,
            vertices@.len() == len,
            out@ == vertices@.take(t as int),
        decreases size - t,
    {
        out.push(vertices[t]);
        proof {
            assert(out@ =~= vertices@.take(t + 1));
        }
        t = t + 1;
    }
    out
}

/// The parameters of a switching search round.
pub struct SeidelConfig {
    /// Clique size to avoid in the graph.
    pub k: u32,
    /// Clique size to avoid in the complement.
    pub ell: u32,
    /// Largest switching set enumerated exhaustively.
    pub max_switch_size: u32,
    /// Random compositions of two switchings tried afterwards.
    pub random_compositions: u32,
    /// Steps of each polish walk (zero: no polishing).
    pub polish_max_steps: u32,
    /// Steps a pair stays tabu while polishing.
    pub polish_tabu_tenure: u32,
}

impl SeidelConfig {
    /// The parameters a round uses when none are given.
    pub fn defaults() -> (r: Self)
        ensures
            r.k == 5,
            r.ell == 5,
            r.max_switch_size == 3,
            r.random_compositions == 5000,
            r.polish_max_steps == 100,
            r.polish_tabu_tenure == 25,
    {
        SeidelConfig {
            k: 5,
            ell: 5,
            max_switch_size: 3,
            random_compositions: 5000,
            polish_max_steps: 100,
            polish_tabu_tenure: 25,
        }
    }
}

/// Most polish walks per round.
pub const MAX_SEIDEL_POLISH: u32 = 50;

/// Report the graph when it has no `k`-clique and its complement no
/// `ell`-clique.
fn check_and_report(graph: &AdjacencyMatrix, cfg: &SeidelConfig, findings: &mut Findings, iteration: u64)
    requires
        graph.wf(),
        1 <= graph.order() <= 63,
        cfg.polish_max_steps + cfg.polish_tabu_tenure <= u32::MAX,
        old(findings).inv(graph.order() as int, cfg.k as nat, cfg.ell as nat),
        old(findings).best is Some <==> old(findings).discoveries@.len() > 0,
    ensures
        final(findings).inv(graph.order() as int, cfg.k as nat, cfg.ell as nat),
        final(findings).best is Some <==> final(findings).discoveries@.len() > 0,
        final(findings).discoveries@.len() >= old(findings).discoveries@.len(),
        final(findings).discoveries@.take(old(findings).discoveries@.len() as int) == old(findings).discoveries@,
        old(findings).best is Some ==> !key_less(old(findings).best_key, final(findings).best_key),
        violation_count(graph@, graph.order() as int, cfg.k as nat, cfg.ell as nat) != 0 ==> *final(findings)
            == *old(findings),
        violation_count(graph@, graph.order() as int, cfg.k as nat, cfg.ell as nat) == 0 ==> {
            &&& final(findings).discoveries@.len() > old(findings).discoveries@.len()
            &&& final(findings).discoveries@[old(findings).discoveries@.len() as int].graph@ == graph@
            &&& final(findings).discoveries@[old(findings).discoveries@.len() as int].iteration == iteration
            &&& !key_less(four_key(graph@, graph.order() as int), final(findings).best_key)
        },
{
    if count_violations(graph, cfg.k, cfg.ell) == 0 {
        findings.report_valid(
            graph,
            cfg.k,
            cfg.ell,
            cfg.polish_max_steps,
            cfg.polish_tabu_tenure,
            MAX_SEIDEL_POLISH,
            iteration,
        );
    }
}

/// The number of ways to pick `r` more vertices out of `start..n`.
pub open spec fn subsets_from(n: int, start: int, r: int) -> nat
    decreases n - start,
{
    if r <= 0 {
        1
    } else if start >= n {
        0
    } else {
        subsets_from(n, start + 1, r - 1) + subsets_from(n, start + 1, r)
    }
}

/// The number of nonempty vertex sets of `0..n` with at most `top`
/// vertices.
pub open spec fn sets_up_to(n: int, top: int) -> nat
    decreases top,
{
    if top <= 0 {
        0
    } else {
        sets_up_to(n, top - 1) + subsets_from(n, 0, top)
    }
}

/// `x`, capped at `cap`.
pub open spec fn capped(x: int, cap: int) -> int {
    if x <= cap {
        x
    } else {
        cap
    }
}

/// `ext` lists vertices of `start..n` in increasing order.
pub open spec fn ascending_from(ext: Seq<u32>, start: int, n: int) -> bool {
    &&& forall|i: int| 0 <= i < ext.len() ==> start <= #[trigger] ext[i] < n
    &&& forall|i: int, j: int| 0 <= i < j < ext.len() ==> #[trigger] ext[i] < #[trigger] ext[j]
}

/// A set of `r` vertices from `start` on exists only where it is counted.
proof fn lemma_ascending_counted(ext: Seq<u32>, start: int, n: int)
    requires
        0 <= start,
        ascending_from(ext, start, n),
    ensures
        subsets_from(n, start, ext.len() as int) >= 1,
    decreases n - start, ext.len(),
{
    if ext.len() > 0 {
        assert(start <= ext[0] < n);
        if ext[0] == start {
            let rest = ext.drop_first();
            assert forall|i: int, j: int| 0 <= i < j < rest.len() implies #[trigger] rest[i] < #[trigger] rest[j] by {
                assert(rest[i] == ext[i + 1] && rest[j] == ext[j + 1]);
            }
            assert forall|i: int| 0 <= i < rest.len() implies start + 1 <= #[trigger] rest[i] < n by {
                assert(rest[i] == ext[i + 1]);
                assert(ext[0] < ext[i + 1]);
            }
            lemma_ascending_counted(rest, start + 1, n);
        } else {
            assert forall|i: int| 0 <= i < ext.len() implies start + 1 <= #[trigger] ext[i] < n by {
                if i > 0 {
                    assert(ext[0] < ext[i]);
                }
            }
            lemma_ascending_counted(ext, start + 1, n);
        }
    }
}

/// The largest switching set enumerated: `max_switch_size`, at most `n`.
pub open spec fn switch_top(max_switch_size: u32, n: u32) -> int {
    if max_switch_size <= n {
        max_switch_size as int
    } else {
        n as int
    }
}

/// Counting sets up to a larger size counts more.
proof fn lemma_sets_up_to_mono(n: int, a: int, b: int)
    requires
        a <= b,
    ensures
        sets_up_to(n, a) <= sets_up_to(n, b),
    decreases b - a,
{
    if a < b {
        lemma_sets_up_to_mono(n, a, b - 1);
        if b > 0 {
            assert(sets_up_to(n, b) == sets_up_to(n, b - 1) + subsets_from(n, 0, b));
        }
    }
}

/// Switch the seed by every set of `size` vertices that extends `current`
/// with vertices from `start` on, in lexicographic order, one iteration
/// each while the budget lasts, reporting the valid results.
fn enumerate_subsets(
    n: u32,
    size: u32,
    current: &mut Vec<u32>,
    start: u32,
    seed: &AdjacencyMatrix,
    cfg: &SeidelConfig,
    findings: &mut Findings,
    iteration: &mut u64,
    max_iters: u64,
)
    requires
        seed.wf(),
        seed.order() == n,
        1 <= n <= 63,
        old(current)@.len() <= size,
        forall|i: int| 0 <= i < old(current)@.len() ==> #[trigger] old(current)@[i] < n,
        cfg.polish_max_steps + cfg.polish_tabu_tenure <= u32::MAX,
        old(findings).inv(n as int, cfg.k as nat, cfg.ell as nat),
        old(findings).best is Some <==> old(findings).discoveries@.len() > 0,
        *old(iteration) <= max_iters,
    ensures
        final(current)@ == old(current)@,
        final(findings).inv(n as int, cfg.k as nat, cfg.ell as nat),
        final(findings).best is Some <==> final(findings).discoveries@.len() > 0,
        *old(iteration) <= *final(iteration) <= max_iters,
        *final(iteration) == capped(
            *old(iteration) + subsets_from(n as int, start as int, size - old(current)@.len()),
            max_iters as int,
        ),
        final(findings).discoveries@.len() >= old(findings).discoveries@.len(),
        final(findings).discoveries@.take(old(findings).discoveries@.len() as int) == old(findings).discoveries@,
        old(findings).best is Some ==> !key_less(old(findings).best_key, final(findings).best_key),
        *old(iteration) + subsets_from(n as int, start as int, size - old(current)@.len()) <= max_iters ==> forall|ext: Seq<u32>|
            ext.len() == size - old(current)@.len() && #[trigger] ascending_from(ext, start as int, n as int) && violation_count(
                switched(seed@, n as int, old(current)@ + ext),
                n as int,
                cfg.k as nat,
                cfg.ell as nat,
            ) == 0 ==> found_graph(final(findings).discoveries@, switched(seed@, n as int, old(current)@ + ext)),
    decreases size - old(current)@.len(),
{
    if current.len() == size as usize {
        if *iteration >= max_iters {
            return;
        }
        *iteration = *iteration + 1;
        let result = seidel_switch(seed, current.as_slice());
        let ghost d_before = findings.discoveries@;
        check_and_report(&result, cfg, findings, *iteration);
        proof {
            assert forall|ext: Seq<u32>|
                ext.len() == size - old(current)@.len() && #[trigger] ascending_from(ext, start as int, n as int) && violation_count(
                    switched(seed@, n as int, old(current)@ + ext),
                    n as int,
                    cfg.k as nat,
                    cfg.ell as nat,
                ) == 0 implies found_graph(findings.discoveries@, switched(seed@, n as int, old(current)@ + ext)) by {
                assert(old(current)@ + ext =~= current@);
                assert(findings.discoveries@[d_before.len() as int].graph@ == result@);
            }
        }
        return;
    }
    let ghost base = current@;
    let mut v: u32 = start;
    while v < n
        invariant
            current@ == base,
            base == old(current)@,
            base.len() < size,
            forall|i: int| 0 <= i < base.len() ==> #[trigger] base[i] < n,
            seed.wf(),
            seed.order() == n,
            1 <= n <= 63,
            cfg.polish_max_steps + cfg.polish_tabu_tenure <= u32::MAX,
            findings.inv(n as int, cfg.k as nat, cfg.ell as nat),
            findings.best is Some <==> findings.discoveries@.len() > 0,
            *old(iteration) <= *iteration <= max_iters,
            v >= start,
            *iteration == capped(
                *old(iteration) + subsets_from(n as int, start as int, size - base.len()) - subsets_from(
                    n as int,
                    v as int,
                    size - base.len(),
                ),
                max_iters as int,
            ),
            subsets_from(n as int, v as int, size - base.len()) <= subsets_from(n as int, start as int, size - base.len()),
            findings.discoveries@.len() >= old(findings).discoveries@.len(),
            findings.discoveries@.take(old(findings).discoveries@.len() as int) == old(findings).discoveries@,
            old(findings).best is Some ==> !key_less(old(findings).best_key, findings.best_key),
            old(findings).best is Some <==> old(findings).discoveries@.len() > 0,
            *old(iteration) + subsets_from(n as int, start as int, size - base.len()) <= max_iters ==> forall|ext: Seq<u32>|
                ext.len() == size - base.len() && #[trigger] ascending_from(ext, start as int, n as int) && ext[0] < v
                    && violation_count(
                    switched(seed@, n as int, base + ext),
                    n as int,
                    cfg.k as nat,
                    cfg.ell as nat,
                ) == 0 ==> found_graph(findings.discoveries@, switched(seed@, n as int, base + ext)),
        decreases n - v,
    {
        if *iteration >= max_iters {
            proof {
                if *old(iteration) + subsets_from(n as int, start as int, size - base.len()) <= max_iters {
                    assert forall|ext: Seq<u32>|
                        ext.len() == size - base.len() && #[trigger] ascending_from(ext, start as int, n as int) && violation_count(
                    switched(seed@, n as int, base + ext),
                    n as int,
                    cfg.k as nat,
                    cfg.ell as nat,
                ) == 0 implies found_graph(findings.discoveries@, switched(seed@, n as int, base + ext)) by {
                        if ext[0] >= v {
                            assert(ascending_from(ext, v as int, n as int)) by {
                                assert forall|i: int| 0 <= i < ext.len() implies v <= #[trigger] ext[i] < n by {
                                    if i > 0 {
                                        assert(ext[0] < ext[i]);
                                    }
                                }
                            }
                            lemma_ascending_counted(ext, v as int, n as int);
                        }
                    }
                }
            }
            return;
        }
        let ghost it_before = *iteration;
        current.push(v);
        proof {
            assert forall|i: int| 0 <= i < current@.len() implies #[trigger] current@[i] < n by {
                if i < base.len() {
                    assert(current@[i] == base[i]);
                }
            }
        }
        let ghost fd = findings.discoveries@;
        let ghost fk = findings.best_key;
        let ghost fb = findings.best;
        let ghost pushed = current@;
        enumerate_subsets(n, size, current, v + 1, seed, cfg, findings, iteration, max_iters);
        current.pop();
        proof {
            assert(current@ =~= base);
            let r = size - base.len();
            if *old(iteration) + subsets_from(n as int, start as int, r) <= max_iters {
                assert(subsets_from(n as int, v as int, r) == subsets_from(n as int, v + 1, r - 1) + subsets_from(n as int, v + 1, r));
                assert(it_before + subsets_from(n as int, v + 1, size - pushed.len()) <= max_iters);
                assert forall|ext: Seq<u32>|
                    ext.len() == r && #[trigger] ascending_from(ext, start as int, n as int) && ext[0] < v + 1
                        && violation_count(
                    switched(seed@, n as int, base + ext),
                    n as int,
                    cfg.k as nat,
                    cfg.ell as nat,
                ) == 0 implies found_graph(findings.discoveries@, switched(seed@, n as int, base + ext)) by {
                    if ext[0] < v {
                        lemma_found_grows(fd, findings.discoveries@, switched(seed@, n as int, base + ext));
                    } else {
                        let rest = ext.drop_first();
                        assert(pushed + rest =~= base + ext);
                        assert forall|i: int| 0 <= i < rest.len() implies v + 1 <= #[trigger] rest[i] < n by {
                            assert(rest[i] == ext[i + 1]);
                            assert(ext[0] < ext[i + 1]);
                        }
                        assert forall|i: int, j: int| 0 <= i < j < rest.len() implies #[trigger] rest[i] < #[trigger] rest[j] by {
                            assert(rest[i] == ext[i + 1] && rest[j] == ext[j + 1]);
                        }
                        assert(ascending_from(rest, v + 1, n as int));
                    }
                }
            }
            let d0 = old(findings).discoveries@.len() as int;
            assert(findings.discoveries@.take(d0) =~= findings.discoveries@.take(fd.len() as int).take(d0));
            if old(findings).best is Some {
                assert(fb is Some);
                assert(!key_less(old(findings).best_key, fk));
                assert(!key_less(fk, findings.best_key));
            }
        }
        v = v + 1;
    }
}

impl SeidelSearch {
    /// Switch the seed graph by every vertex set of up to
    /// `max_switch_size` vertices (smallest first), then by compositions
    /// of two random switchings, one iteration each within `max_iters`,
    /// reporting and polishing (up to fifty walks) every valid result.
    /// Without a seed graph nothing is searched. The best graph is the
    /// valid one with the lowest `(max, min)` 4-clique counts. Of the
    /// graphs found, only those whose CID (`cid_of`, meant to name the
    /// isomorphism class) is not among `known_cids` nor that of an earlier
    /// one are handed back.
    pub fn search<F: Fn(&AdjacencyMatrix) -> GraphCid>(
        &self,
        n: u32,
        max_iters: u64,
        seed: u64,
        init_graph: Option<AdjacencyMatrix>,
        cfg: &SeidelConfig,
        known_cids: Vec<GraphCid>,
        cid_of: F,
    ) -> (r: SearchResult)
        requires
            1 <= n <= 63,
            init_graph matches Some(g) ==> g.wf() && g.order() == n,
            cfg.polish_max_steps + cfg.polish_tabu_tenure <= u32::MAX,
            forall|g: &AdjacencyMatrix| g.wf() ==> #[trigger] cid_of.requires((g,)),
        ensures
            init_graph is None ==> r.iterations_used == 0 && !r.valid && r.discoveries@.len() == 0,
            init_graph is Some ==> r.iterations_used == capped(
                sets_up_to(
                    n as int,
                    if cfg.max_switch_size <= n {
                        cfg.max_switch_size as int
                    } else {
                        n as int
                    },
                ) + cfg.random_compositions,
                max_iters as int,
            ),
            all_valid(r.discoveries@, n as int, cfg.k as nat, cfg.ell as nat),
            r.iterations_used <= max_iters,
            r.valid <==> r.best_graph is Some,
            exists|found: Seq<RawDiscovery>, known1: Seq<GraphCid>, c: Seq<GraphCid>, pos: Seq<int>|
                #[trigger] kept_new(cid_of, found, known_cids@, known1, r.discoveries@, c, pos) && all_valid(
                    found,
                    n as int,
                    cfg.k as nat,
                    cfg.ell as nat,
                ) && (r.valid <==> found.len() > 0) && (init_graph matches Some(g) ==> (sets_up_to(
                    n as int,
                    switch_top(cfg.max_switch_size, n),
                ) <= max_iters ==> forall|ext: Seq<u32>|
                    1 <= ext.len() <= switch_top(cfg.max_switch_size, n) && #[trigger] ascending_from(ext, 0, n as int)
                        && violation_count(switched(g@, n as int, ext), n as int, cfg.k as nat, cfg.ell as nat) == 0
                        ==> found_graph(found, switched(g@, n as int, ext)))),
            r.best_graph matches Some(g) ==> g.wf() && g.order() == n && violation_count(
                g@,
                n as int,
                cfg.k as nat,
                cfg.ell as nat,
            ) == 0,
    {
        let mut rng = seeded_rng(seed);
        let seed_graph = match init_graph {
            Some(g) => g,
            None => {
                let r = SearchResult { best_graph: None, valid: false, iterations_used: 0, discoveries: Vec::new() };
                proof {
                    let e: Seq<RawDiscovery> = Seq::empty();
                    assert(known_cids@.take(known_cids@.len() as int) =~= known_cids@);
                    assert(kept_new(cid_of, e, known_cids@, known_cids@, r.discoveries@, Seq::empty(), Seq::empty()));
                }
                return r;
            },
        };
        let mut findings = Findings::new();
        let mut iteration: u64 = 0;
        let top = if cfg.max_switch_size <= n {
            cfg.max_switch_size
        } else {
            n
        };
        let mut size: u32 = 1;
        while size <= top
            invariant
                1 <= size,
                top <= n,
                seed_graph.wf(),
                seed_graph.order() == n,
                1 <= n <= 63,
                cfg.polish_max_steps + cfg.polish_tabu_tenure <= u32::MAX,
                findings.inv(n as int, cfg.k as nat, cfg.ell as nat),
                findings.best is Some <==> findings.discoveries@.len() > 0,
                iteration <= max_iters,
                size <= top + 1,
                iteration == capped(sets_up_to(n as int, size - 1) as int, max_iters as int),
                top == switch_top(cfg.max_switch_size, n),
                sets_up_to(n as int, top as int) <= max_iters ==> forall|ext: Seq<u32>|
                    1 <= ext.len() < size && #[trigger] ascending_from(ext, 0, n as int) && violation_count(
                        switched(seed_graph@, n as int, ext),
                        n as int,
                        cfg.k as nat,
                        cfg.ell as nat,
                    ) == 0 ==> found_graph(findings.discoveries@, switched(seed_graph@, n as int, ext)),
            decreases top + 1 - size,
        {
            let mut subset: Vec<u32> = Vec::new();
            let ghost fd = findings.discoveries@;
            let ghost e0: Seq<u32> = subset@;
            proof {
                lemma_sets_up_to_mono(n as int, size as int, top as int);
                lemma_sets_up_to_mono(n as int, size - 1, size as int);
            }
            enumerate_subsets(n, size, &mut subset, 0, &seed_graph, cfg, &mut findings, &mut iteration, max_iters);
            proof {
                if sets_up_to(n as int, top as int) <= max_iters {
                    assert forall|ext: Seq<u32>|
                        1 <= ext.len() < size + 1 && #[trigger] ascending_from(ext, 0, n as int) && violation_count(
                            switched(seed_graph@, n as int, ext),
                            n as int,
                            cfg.k as nat,
                            cfg.ell as nat,
                        ) == 0 implies found_graph(findings.discoveries@, switched(seed_graph@, n as int, ext)) by {
                        assert(e0 + ext =~= ext);
                        if ext.len() < size {
                            lemma_found_grows(fd, findings.discoveries@, switched(seed_graph@, n as int, ext));
                        }
                    }
                }
            }
            assert(sets_up_to(n as int, size as int) == sets_up_to(n as int, size - 1) + subsets_from(n as int, 0, size as int));
            size = size + 1;
        }
        let ghost it0 = iteration;
        let ghost d_e = findings.discoveries@;
        assert(findings.discoveries@.take(d_e.len() as int) =~= d_e);
        if cfg.random_compositions > 0 {
            let remaining = max_iters - iteration;
            let compositions = if (cfg.random_compositions as u64) <= remaining {
                cfg.random_compositions as u64
            } else {
                remaining
            };
            let half = if cfg.max_switch_size <= n / 2 {
                cfg.max_switch_size
            } else {
                n / 2
            };
            let bound = if half >= 1 {
                half
            } else {
                1
            };
            let mut c: u64 = 0;
            while c < compositions
                invariant
                    1 <= bound <= 31,
                    seed_graph.wf(),
                    seed_graph.order() == n,
                    1 <= n <= 63,
                    cfg.polish_max_steps + cfg.polish_tabu_tenure <= u32::MAX,
                    findings.inv(n as int, cfg.k as nat, cfg.ell as nat),
                    findings.best is Some <==> findings.discoveries@.len() > 0,
                    iteration <= max_iters,
                    c <= compositions,
                    compositions <= max_iters - it0,
                    iteration == it0 + c,
                    findings.discoveries@.len() >= d_e.len(),
                    findings.discoveries@.take(d_e.len() as int) == d_e,
                ensures
                    iteration == it0 + compositions,
                    findings.discoveries@.len() >= d_e.len(),
                    findings.discoveries@.take(d_e.len() as int) == d_e,
                decreases compositions - c,
            {
                if iteration >= max_iters {
                    break;
                }
                iteration = iteration + 1;
                let size1 = random_u32_in(&mut rng, 1, bound + 1);
                let set1 = random_subset(n, size1, &mut rng);
                let size2 = random_u32_in(&mut rng, 1, bound + 1);
                let set2 = random_subset(n, size2, &mut rng);
                let first = seidel_switch(&seed_graph, set1.as_slice());
                let switched = seidel_switch(&first, set2.as_slice());
                let ghost d_c = findings.discoveries@;
                check_and_report(&switched, cfg, &mut findings, iteration);
                proof {
                    assert(findings.discoveries@.take(d_e.len() as int) =~= findings.discoveries@.take(d_c.len() as int).take(d_e.len() as int));
                }
                c = c + 1;
            }
        }
        let Findings { discoveries, best, .. } = findings;
        let valid = best.is_some();
        let mut known = known_cids;
        let kept = keep_new_discoveries(&discoveries, &mut known, &cid_of);
        let ghost kept_view = kept@;
        proof {
            let (c, pos) = choose|c: Seq<GraphCid>, pos: Seq<int>|
                #[trigger] kept_new(cid_of, discoveries@, known_cids@, known@, kept@, c, pos);
            lemma_kept_valid(cid_of, discoveries@, known_cids@, known@, kept@, c, pos, n as int, cfg.k as nat, cfg.ell as nat);
        }
        let r = SearchResult { best_graph: best, valid, iterations_used: iteration, discoveries: kept };
        assert(r.discoveries@ == kept_view);
        proof {
            if sets_up_to(n as int, top as int) <= max_iters {
                assert forall|ext: Seq<u32>|
                    1 <= ext.len() <= top && #[trigger] ascending_from(ext, 0, n as int) && violation_count(
                        switched(seed_graph@, n as int, ext),
                        n as int,
                        cfg.k as nat,
                        cfg.ell as nat,
                    ) == 0 implies found_graph(discoveries@, switched(seed_graph@, n as int, ext)) by {
                    lemma_found_grows(d_e, discoveries@, switched(seed_graph@, n as int, ext));
                }
            }
        }
        r
    }
}

} // verus!
